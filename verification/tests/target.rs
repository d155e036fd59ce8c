use mini_renderer::renderer::{Renderer, WithBlend};
use mini_renderer::target::RenderTarget;

#[test]
fn test_renderer_creation() {
    let renderer = Renderer::new(800, 600);
    assert_eq!(renderer.width(), 800);
    assert_eq!(renderer.height(), 600);
}

#[test]
fn renderer_dimensions_can_change() {
    let mut renderer = Renderer::new(800, 600);
    renderer.set_width(320);
    assert_eq!((renderer.width(), renderer.height()), (320, 600));
    renderer.set_height(200);
    assert_eq!((renderer.width(), renderer.height()), (320, 200));
    let pass = renderer.begin_render_pass();
    assert_eq!(pass.renderer().width(), 320);
}

#[test]
fn blend_marker_holds_its_operation() {
    let blend = WithBlend::new(7u8);
    assert_eq!(*blend.blend(), 7);
}

#[test]
fn render_target_clears_buffers() {
    let mut colors = vec![0u32; 6];
    let mut depths = vec![0.0f32; 6];
    {
        let mut target = RenderTarget::new(3, 2, &mut colors);
        target.clear_color(9);
        let mut target = target.with_depth(&mut depths);
        target.clear_depth(1.0);
        target.clear_color(5);
    }
    assert_eq!(colors, vec![5; 6]);
    assert_eq!(depths, vec![1.0; 6]);
}

#[test]
fn render_target_splits_into_bands() {
    let mut colors: Vec<u32> = (0..15).collect();
    let mut depths = vec![0.5f32; 15];
    let target = RenderTarget::new(3, 5, &mut colors).with_depth(&mut depths);
    let mut tiles = target.split_into_horizontal_tiles(2);
    assert_eq!(tiles.len(), 3);
    assert_eq!(tiles.iter().map(|t| t.height).collect::<Vec<_>>(), vec![2, 2, 1]);
    assert_eq!(tiles[1].colors.to_vec(), vec![6, 7, 8, 9, 10, 11]);
    tiles[2].clear_color(0);
    tiles[0].clear_depth(2.0);
    drop(tiles);
    assert_eq!(&colors[12..], &[0, 0, 0]);
    assert_eq!(depths[0..6], [2.0; 6]);
    assert_eq!(depths[6], 0.5);
}

#[test]
fn render_target_splits_into_scanlines() {
    let mut colors = vec![1u8; 8];
    let mut depths = vec![0.0f32; 8];
    let target = RenderTarget::new(4, 2, &mut colors).with_depth(&mut depths);
    let lines = target.split_into_scanlines();
    assert_eq!(lines.len(), 2);
    assert!(lines.iter().all(|l| l.width == 4 && l.height == 1 && l.colors.len() == 4));
}

#[test]
fn scanlines_write_back_to_their_own_rows() {
    let mut colors = vec![0u16; 6];
    let mut depths = vec![0u8; 6];
    let target = RenderTarget::new(2, 3, &mut colors).with_depth(&mut depths);
    let mut lines = target.split_into_scanlines();
    for (row, line) in lines.iter_mut().enumerate() {
        line.colors[0] = 10 * row as u16;
        line.colors[1] = 10 * row as u16 + 1;
        line.depths[1] = row as u8 + 1;
    }
    drop(lines);
    assert_eq!(colors, vec![0, 1, 10, 11, 20, 21]);
    assert_eq!(depths, vec![0, 1, 0, 2, 0, 3]);
}

#[test]
fn bands_are_full_height_but_the_last() {
    let mut colors = vec![0u8; 4 * 7];
    let mut depths = vec![0u8; 4 * 7];
    let target = RenderTarget::new(4, 7, &mut colors).with_depth(&mut depths);
    let tiles = target.split_into_horizontal_tiles(3);
    assert_eq!(tiles.len(), 3);
    assert_eq!(tiles.iter().map(|t| t.height).collect::<Vec<_>>(), vec![3, 3, 1]);
    assert!(tiles.iter().all(|t| t.width == 4 && t.colors.len() == 4 * t.height));
}
