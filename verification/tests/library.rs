use image::{DynamicImage, GenericImageView};
use site_patterns::bitmap_loader::{
    bitmap_from_image, bitmap_to_image, create_test_bitmap, image_fits_bitmap, image_fits_of,
    is_supported_extension,
};
use site_patterns::grid::{Bitmap, Volume};
use site_patterns::pattern::{
    best_site, bitmaps_or_default, create_custom_bitmaps, flip_bit, flips_needed, goodness, xor,
    Goodness,
};
use site_patterns::player::Player;
use site_patterns::site::{Site, SiteManager};
use site_patterns::state::{GameState, Point2};
use site_patterns::ui::{canvas_glyph, side_glyph, SideView};

fn game(side: usize, player: Point2) -> GameState {
    GameState {
        state: Volume::new(side, side, side, false),
        sites: Vec::new(),
        bmp: Bitmap::new(2, 2, true),
        player,
    }
}

#[test]
fn moves_follow_the_keys_and_stop_at_the_edge() {
    let mut g = game(4, (0, 0));
    g.move_player('w');
    assert_eq!(g.player, (0, 1));
    g.move_player('d');
    assert_eq!(g.player, (1, 1));
    g.move_player('s');
    assert_eq!(g.player, (1, 0));
    g.move_player('s');
    assert_eq!(g.player, (1, 0));
    g.move_player('a');
    assert_eq!(g.player, (0, 0));
    g.move_player('a');
    assert_eq!(g.player, (0, 0));
    let mut h = game(4, (3, 3));
    h.move_player('w');
    h.move_player('d');
    assert_eq!(h.player, (3, 3));
}

#[test]
fn other_keys_leave_the_player() {
    let mut g = game(4, (2, 2));
    g.move_player('x');
    g.move_player('W');
    assert_eq!(g.player, (2, 2));
}

#[test]
fn a_move_is_undone_by_the_opposite_key() {
    let mut g = game(5, (2, 2));
    for (k, back) in [('w', 's'), ('s', 'w'), ('a', 'd'), ('d', 'a')] {
        g.move_player(k);
        assert_ne!(g.player, (2, 2));
        g.move_player(back);
        assert_eq!(g.player, (2, 2));
    }
}

#[test]
fn force_site_appends_the_player_position() {
    let mut g = game(4, (1, 2));
    g.force_site();
    g.move_player('d');
    g.force_site();
    assert_eq!(g.sites, vec![Some((1, 2)), Some((2, 2))]);
}

#[test]
fn bitmap_rows_round_trip() {
    let rows = vec![vec![true, false], vec![false, false], vec![true, true]];
    let b = Bitmap::from_rows(&rows);
    assert_eq!(b.dim(), (3, 2));
    assert_eq!(b.to_rows(), rows);
    assert_eq!(b.count(true), 3);
    assert_eq!(b.count(false), 3);
    let empty = Bitmap::from_rows(&Vec::new());
    assert_eq!(empty.dim(), (0, 0));
}

#[test]
fn bitmap_set_changes_one_cell() {
    let mut b = Bitmap::new(2, 3, false);
    b.set(1, 2, true);
    assert_eq!(b.to_rows(), vec![vec![false, false, false], vec![false, false, true]]);
}

#[test]
fn volume_set_and_flip() {
    let mut v = Volume::new(2, 3, 4, false);
    assert_eq!(v.dim(), (2, 3, 4));
    assert!(flip_bit(&mut v, (1, 2, 3)));
    assert!(v.get(1, 2, 3));
    assert!(!flip_bit(&mut v, (1, 2, 3)));
    assert!(v.get(1, 2, 3));
    assert!(!v.get(0, 2, 3));
    v.set(1, 2, 3, false);
    assert!(!v.get(1, 2, 3));
}

#[test]
fn xor_of_a_bitmap_with_itself_is_clear() {
    let b = create_test_bitmap();
    assert_eq!(xor(&b, &b), Bitmap::new(3, 3, false));
    let e = Bitmap::new(0, 4, false);
    assert_eq!(xor(&e, &b).dim(), (0, 4));
}

#[test]
fn goodness_counts_agreeing_cells() {
    let bmp = create_test_bitmap();
    let mut side = Volume::new(4, 4, 1, false);
    // All clear: the four clear cells of the cross agree.
    assert_eq!(goodness(&(1, 1), &side, &bmp), Goodness { matching: 4, total: 9 });
    // The cross drawn into the grid at (1, 1): every cell agrees.
    for (i, j) in [(0, 1), (1, 0), (1, 1), (1, 2), (2, 1)] {
        side.set(1 + i, 1 + j, 0, true);
    }
    assert_eq!(goodness(&(1, 1), &side, &bmp), Goodness { matching: 9, total: 9 });
    // Shifted by one, it no longer lines up.
    assert_eq!(goodness(&(0, 0), &side, &bmp), Goodness { matching: 5, total: 9 });
}

#[test]
fn goodness_outside_the_grid_is_zero() {
    let bmp = create_test_bitmap();
    let side = Volume::new(4, 4, 1, true);
    assert_eq!(goodness(&(2, 0), &side, &bmp), Goodness { matching: 0, total: 1 });
    assert_eq!(goodness(&(0, 2), &side, &bmp), Goodness { matching: 0, total: 1 });
    // An empty bitmap fits anywhere inside and scores 0 / 0.
    let empty = Bitmap::new(0, 0, false);
    let g = goodness(&(1, 1), &side, &empty);
    assert_eq!(g, Goodness { matching: 0, total: 0 });
    assert!((g.matching as f32 / g.total as f32).is_nan());
}

#[test]
fn site_completion_threshold() {
    let site = Site::new((0, 0));
    assert!(!site.is_complete(Goodness { matching: 9, total: 10 }));
    assert!(site.is_complete(Goodness { matching: 10, total: 10 }));
    assert!(site.is_complete(Goodness { matching: 19, total: 20 }));
    assert!(!site.is_complete(Goodness { matching: 0, total: 0 }));
}

#[test]
fn site_state_changes() {
    let mut site = Site::with_custom_bitmap((1, 2), Bitmap::new(2, 5, true));
    let default = Bitmap::new(3, 3, false);
    assert_eq!(site.get_dimensions(&default), (2, 5));
    site.deactivate();
    assert!(!site.is_active);
    site.reactivate();
    assert!(site.is_active);
    site.move_to((7, 8));
    assert_eq!(site.position, (7, 8));
    let plain = Site::new((0, 0));
    assert_eq!(plain.get_dimensions(&default), (3, 3));
    assert_eq!(plain.get_bitmap(&default), &default);
}

#[test]
fn site_manager_find_remove_and_counts() {
    let mut sites = SiteManager::new();
    sites.add_site((1, 1));
    sites.add_custom_site((2, 2), Bitmap::new(1, 1, true));
    sites.add_site((1, 1));
    assert_eq!(sites.total_count(), 3);
    assert_eq!(sites.active_count(), 3);
    sites.find_site_at_mut((2, 2)).unwrap().deactivate();
    assert_eq!(sites.active_count(), 2);
    assert_eq!(sites.get_active_sites().len(), 2);
    assert!(sites.find_site_at((9, 9)).is_none());
    assert!(!sites.find_site_at((2, 2)).unwrap().is_active);
    let removed = sites.remove_site_at((1, 1)).unwrap();
    assert_eq!(removed.position, (1, 1));
    assert_eq!(sites.total_count(), 2);
    assert_eq!(sites.get_all_sites()[0].position, (2, 2));
    assert!(sites.remove_site_at((5, 5)).is_none());
    sites.clear();
    assert_eq!(sites.total_count(), 0);
}

#[test]
fn changes_through_active_references_reach_the_manager() {
    let mut sites = SiteManager::new();
    sites.add_site((1, 1));
    sites.add_site((2, 2));
    sites.add_site((3, 3));
    sites.get_all_sites_mut()[1].deactivate();
    for site in sites.get_active_sites_mut() {
        site.move_to((site.position.0 + 10, site.position.1));
    }
    let all = sites.get_all_sites();
    assert_eq!(all[0].position, (11, 1));
    assert_eq!(all[1].position, (2, 2));
    assert_eq!(all[2].position, (13, 3));
}

#[test]
fn a_new_site_collides_with_its_own_place() {
    let mut sites = SiteManager::new();
    let bmp = Bitmap::new(2, 2, false);
    sites.add_site((5, 5));
    assert!(sites.collides_with_sites((5, 5), (2, 2), &bmp));
    assert!(sites.collides_with_sites((4, 4), (2, 2), &bmp));
    assert!(!sites.collides_with_sites((3, 5), (2, 2), &bmp));
    assert!(!sites.collides_with_sites((7, 5), (2, 2), &bmp));
    sites.find_site_at_mut((5, 5)).unwrap().deactivate();
    assert!(!sites.collides_with_sites((5, 5), (2, 2), &bmp));
}

#[test]
fn best_site_picks_the_first_highest_free_candidate() {
    let bmp = Bitmap::new(2, 2, true);
    let mut state = Volume::new(6, 6, 1, false);
    // A full 2x2 block at (0, 0) and at (4, 4); three set cells at (2, 2).
    for (x, y) in [(0, 0), (0, 1), (1, 0), (1, 1), (4, 4), (4, 5), (5, 4), (5, 5), (2, 2), (2, 3), (3, 2)] {
        state.set(x, y, 0, true);
    }
    let mut sites = SiteManager::new();
    let candidates = vec![(2, 2), (4, 4), (0, 0), (5, 5)];
    assert_eq!(best_site(&sites, &candidates, &state, &bmp), Some((4, 4)));
    sites.add_site((4, 4));
    assert_eq!(best_site(&sites, &candidates, &state, &bmp), Some((0, 0)));
    sites.add_site((0, 0));
    assert_eq!(best_site(&sites, &candidates, &state, &bmp), Some((2, 2)));
    let empty = Volume::new(6, 6, 1, false);
    assert_eq!(best_site(&SiteManager::new(), &candidates, &empty, &bmp), None);
    assert_eq!(best_site(&SiteManager::new(), &Vec::new(), &state, &bmp), None);
}

#[test]
fn flips_needed_rounds_up() {
    let quarter = Bitmap::from_rows(&vec![vec![true, false], vec![false, false]]);
    assert_eq!(flips_needed(&quarter, 4), 16);
    let cross = create_test_bitmap();
    // 8 * 5 / 9 = 4.44...
    assert_eq!(flips_needed(&cross, 2), 5);
    assert_eq!(flips_needed(&Bitmap::new(0, 3, false), 4), 0);
    assert_eq!(flips_needed(&Bitmap::new(2, 2, false), 4), 0);
    assert_eq!(flips_needed(&Bitmap::new(2, 2, true), 3), 27);
}

#[test]
fn image_pixels_become_cells() {
    let mut img = image::RgbaImage::new(5, 1);
    img.put_pixel(0, 0, image::Rgba([255, 255, 255, 255])); // white
    img.put_pixel(1, 0, image::Rgba([241, 241, 241, 255])); // near white
    img.put_pixel(2, 0, image::Rgba([240, 255, 255, 255])); // one channel at 240
    img.put_pixel(3, 0, image::Rgba([10, 20, 30, 127])); // transparent
    img.put_pixel(4, 0, image::Rgba([10, 20, 30, 128])); // opaque enough
    let dynamic = DynamicImage::ImageRgba8(img);
    assert!(image_fits_bitmap(&dynamic));
    let b = bitmap_from_image(&dynamic).unwrap();
    assert_eq!(b.dim(), (1, 5));
    assert_eq!(b.to_rows(), vec![vec![false, false, true, false, true]]);
}

#[test]
fn bitmap_image_round_trip() {
    let b = Bitmap::from_rows(&vec![vec![true, false, false], vec![false, true, true]]);
    assert!(image_fits_of(&b));
    let img = bitmap_to_image(&b);
    assert_eq!(img.dimensions(), (3, 2));
    assert_eq!(img.get_pixel(0, 0).0, [0, 0, 0, 255]);
    assert_eq!(img.get_pixel(1, 0).0, [255, 255, 255, 255]);
    assert_eq!(img.get_pixel(2, 1).0, [0, 0, 0, 255]);
    let back = bitmap_from_image(&img).unwrap();
    assert_eq!(back, b);
}

#[test]
fn empty_bitmap_gives_empty_image() {
    let b = Bitmap::new(0, 7, false);
    let img = bitmap_to_image(&b);
    assert_eq!(img.dimensions(), (7, 0));
    assert_eq!(bitmap_from_image(&img).unwrap().dim(), (0, 7));
}

#[test]
fn supported_extensions() {
    for ext in ["bmp", "png", "jpg", "jpeg"] {
        assert!(is_supported_extension(ext));
    }
    for ext in ["BMP", "gif", "", "jpe", "bmpx"] {
        assert!(!is_supported_extension(ext));
    }
}

#[test]
fn default_bitmaps() {
    let set = create_custom_bitmaps();
    assert_eq!(set.len(), 4);
    assert_eq!(set[0], create_test_bitmap());
    assert_eq!(set[1].to_rows(), vec![vec![true, true], vec![true, true]]);
    assert_eq!(
        set[2].to_rows(),
        vec![vec![true, false, false], vec![false, true, false], vec![false, false, true]]
    );
    assert_eq!(
        set[3].to_rows(),
        vec![vec![true, true, true], vec![true, false, true], vec![true, true, true]]
    );
    assert_eq!(bitmaps_or_default(None).len(), 4);
    assert_eq!(bitmaps_or_default(Some(Vec::new())).len(), 4);
    let loaded = bitmaps_or_default(Some(vec![Bitmap::new(1, 1, true)]));
    assert_eq!(loaded, vec![Bitmap::new(1, 1, true)]);
}

#[test]
fn player_and_views() {
    let p = Player::new((3, 4), Bitmap::new(1, 2, true));
    assert_eq!(p.position, (3, 4));
    assert_eq!(p.bitmap.dim(), (1, 2));
    let view = SideView::new(create_test_bitmap());
    assert_eq!(view.side(), &create_test_bitmap());
    assert_eq!(side_glyph(true), '\u{2588}');
    assert_eq!(side_glyph(false), ' ');
    assert_eq!(canvas_glyph(false), '.');
}
