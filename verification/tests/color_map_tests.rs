use color_map::error::ColorMapError;
use color_map::image_process::process_image;
use color_map::image_process::select_mask;
use color_map::image_process::BackgroundMask;
use color_map::kmeans::calculate_centroids;
use color_map::kmeans::closest_centroid;
use color_map::kmeans::get_unique_colors;
use color_map::kmeans::kmeans;
use color_map::kmeans::kmeans_seeds;
use color_map::kmeans::mean;
use color_map::kmeans::median;
use color_map::kmeans::sort_by_count_desc;
use color_map::kmeans::ColorContainer;
use color_map::raster::Pixel;
use color_map::raster::Raster;
use color_map::rng::Sampler;
use color_map::Configuration;

fn px(r: u8, g: u8, b: u8, a: u8) -> Pixel {
    Pixel { r, g, b, a }
}

fn cc(r: u8, g: u8, b: u8, count: u32) -> ColorContainer {
    ColorContainer { r, g, b, count }
}

fn config(k: usize, is_mean: bool, is_cropping: bool) -> Configuration {
    Configuration {
        is_cropping,
        is_debug: false,
        is_mean,
        k,
        image_path: String::new(),
    }
}

#[test]
fn scenario_a_all_white_is_emptied() {
    let pixels = vec![px(255, 255, 255, 255); 4];
    let raster = Raster::new(2, 2, pixels);
    assert_eq!(
        select_mask(&raster),
        Some(BackgroundMask::Light),
        "four bright corners select the light mask"
    );
    let processed = process_image(raster, &config(1, false, false));
    for y in 0..2 {
        for x in 0..2 {
            assert_eq!(processed.get(x, y).a, 0);
        }
    }
    let histogram = get_unique_colors(processed);
    assert!(histogram.is_empty());

    let raster2 = Raster::new(2, 2, vec![px(255, 255, 255, 255); 4]);
    let processed2 = process_image(raster2, &config(1, false, false));
    let mut sampler = Sampler::from_seed(7);
    let res = kmeans(&config(1, false, false), processed2, &mut sampler);
    assert_eq!(res, Err(ColorMapError::EmptyPalette));
}

#[test]
fn scenario_b_dark_border_leaves_center() {
    let mut pixels = vec![px(0, 0, 0, 255); 9];
    pixels[4] = px(255, 0, 0, 255);
    let raster = Raster::new(3, 3, pixels);
    assert_eq!(select_mask(&raster), Some(BackgroundMask::Dark));
    let processed = process_image(raster, &config(1, false, false));
    for y in 0..3 {
        for x in 0..3 {
            if x == 1 && y == 1 {
                assert_eq!(processed.get(x, y), px(255, 0, 0, 255));
            } else {
                assert_eq!(processed.get(x, y).a, 0);
            }
        }
    }
    let histogram = get_unique_colors(processed);
    assert_eq!(histogram.len(), 1);
    assert_eq!(histogram[0], cc(255, 0, 0, 1));

    let mut pixels2 = vec![px(0, 0, 0, 255); 9];
    pixels2[4] = px(255, 0, 0, 255);
    let raster2 = Raster::new(3, 3, pixels2);
    let processed2 = process_image(raster2, &config(1, false, false));
    let mut sampler = Sampler::from_seed(7);
    let res = kmeans(&config(1, false, false), processed2, &mut sampler).unwrap();
    assert_eq!(res.len(), 1);
    assert_eq!(res[0].to_hex_string(), "#FF0000");
    assert_eq!(res[0].count, 1);
}

#[test]
fn scenario_c_mean_aggregation() {
    let buckets = vec![cc(0, 0, 0, 5), cc(10, 10, 10, 1), cc(100, 100, 100, 1)];
    let m = mean(&buckets);
    assert_eq!(m, cc(36, 36, 36, 7));
}

#[test]
fn scenario_c_median_aggregation() {
    let buckets = vec![cc(0, 0, 0, 5), cc(10, 10, 10, 1), cc(100, 100, 100, 1)];
    let m = median(&buckets);
    assert_eq!(m, cc(10, 10, 10, 7));
}

#[test]
fn scenario_d_insufficient_colors() {
    let raster = Raster::new(2, 1, vec![px(10, 20, 30, 255), px(40, 50, 60, 255)]);
    let mut sampler = Sampler::from_seed(7);
    let res = kmeans(&config(3, false, false), raster, &mut sampler);
    assert_eq!(res, Err(ColorMapError::InsufficientColors { k: 3, found: 2 }));
}

#[test]
fn mask_selection_light_wins_over_dark() {
    // every corner at least 200 on every channel: light, even though the
    // center is dark
    let mut pixels = vec![px(200, 220, 240, 255); 9];
    pixels[4] = px(0, 0, 0, 255);
    let raster = Raster::new(3, 3, pixels);
    assert_eq!(select_mask(&raster), Some(BackgroundMask::Light));
}

#[test]
fn mask_selection_dark() {
    let pixels = vec![px(55, 0, 55, 255); 4];
    let raster = Raster::new(2, 2, pixels);
    assert_eq!(select_mask(&raster), Some(BackgroundMask::Dark));
}

#[test]
fn mask_selection_none_on_mixed_corners() {
    let pixels = vec![
        px(255, 255, 255, 255),
        px(0, 0, 0, 255),
        px(255, 255, 255, 255),
        px(0, 0, 0, 255),
    ];
    let raster = Raster::new(2, 2, pixels);
    assert_eq!(select_mask(&raster), None);
}

#[test]
fn mask_selection_threshold_edges() {
    // 199 on one channel of one corner breaks the light mask; 56 breaks the
    // dark one
    let raster = Raster::new(2, 2, vec![
        px(199, 255, 255, 255),
        px(255, 255, 255, 255),
        px(255, 255, 255, 255),
        px(255, 255, 255, 255),
    ]);
    assert_eq!(select_mask(&raster), None);
    let raster2 = Raster::new(2, 2, vec![
        px(56, 0, 0, 255),
        px(0, 0, 0, 255),
        px(0, 0, 0, 255),
        px(0, 0, 0, 255),
    ]);
    assert_eq!(select_mask(&raster2), None);
}

#[test]
fn transparent_corner_counts_as_ignorable() {
    let pixels = vec![
        px(7, 7, 7, 0),
        px(255, 255, 255, 255),
        px(255, 255, 255, 255),
        px(255, 255, 255, 255),
    ];
    let raster = Raster::new(2, 2, pixels);
    assert_eq!(select_mask(&raster), Some(BackgroundMask::Light));
}

#[test]
fn flood_fill_stops_at_non_ignorable_pixels() {
    // bright corners, an opaque red ring between them and a bright center:
    // the fill clears the corners and cannot reach the center
    let mut pixels = vec![px(200, 10, 10, 255); 9];
    pixels[0] = px(255, 255, 255, 255);
    pixels[2] = px(255, 255, 255, 255);
    pixels[6] = px(255, 255, 255, 255);
    pixels[8] = px(255, 255, 255, 255);
    pixels[4] = px(255, 255, 255, 255);
    let raster = Raster::new(3, 3, pixels);
    assert_eq!(select_mask(&raster), Some(BackgroundMask::Light));
    let processed = process_image(raster, &config(1, false, false));
    // corners filled
    assert_eq!(processed.get(0, 0).a, 0);
    assert_eq!(processed.get(2, 0).a, 0);
    assert_eq!(processed.get(0, 2).a, 0);
    assert_eq!(processed.get(2, 2).a, 0);
    // unreachable bright center untouched
    assert_eq!(processed.get(1, 1), px(255, 255, 255, 255));
    // the opaque ring untouched
    assert_eq!(processed.get(1, 0), px(200, 10, 10, 255));
    assert_eq!(processed.get(0, 1), px(200, 10, 10, 255));
}

#[test]
fn flood_fill_keeps_existing_transparency() {
    // a transparent pixel blocks propagation and never reverts
    let mut pixels = vec![px(255, 255, 255, 255); 9];
    pixels[1] = px(9, 9, 9, 0);
    let raster = Raster::new(3, 3, pixels);
    let processed = process_image(raster, &config(1, false, false));
    assert_eq!(processed.get(1, 0), px(9, 9, 9, 0));
    for y in 0..3 {
        for x in 0..3 {
            assert_eq!(processed.get(x, y).a, 0);
        }
    }
}

#[test]
fn crop_takes_central_quadrant() {
    // 4x4 raster whose central 2x2 window holds distinct colors; the mixed
    // corners of the cropped raster select no mask, so the crop comes back
    // unmodified
    let mut pixels = Vec::new();
    for y in 0..4u8 {
        for x in 0..4u8 {
            pixels.push(px(x * 10, y * 10, 100, 255));
        }
    }
    let raster = Raster::new(4, 4, pixels);
    let processed = process_image(raster, &config(1, false, true));
    assert_eq!(processed.width, 2);
    assert_eq!(processed.height, 2);
    assert_eq!(processed.get(0, 0), px(10, 10, 100, 255));
    assert_eq!(processed.get(1, 0), px(20, 10, 100, 255));
    assert_eq!(processed.get(0, 1), px(10, 20, 100, 255));
    assert_eq!(processed.get(1, 1), px(20, 20, 100, 255));
}

#[test]
fn unique_colors_count_exactly() {
    let pixels = vec![
        px(1, 2, 3, 255),
        px(4, 5, 6, 255),
        px(1, 2, 3, 255),
        px(7, 8, 9, 0),
        px(1, 2, 3, 255),
        px(4, 5, 6, 255),
    ];
    let raster = Raster::new(6, 1, pixels);
    let histogram = get_unique_colors(raster);
    assert_eq!(histogram.len(), 2);
    assert_eq!(histogram[0], cc(1, 2, 3, 3));
    assert_eq!(histogram[1], cc(4, 5, 6, 2));
}

#[test]
fn clustering_returns_exactly_k_centroids() {
    let pixels = vec![
        px(10, 0, 0, 255),
        px(12, 0, 0, 255),
        px(200, 200, 0, 255),
        px(202, 198, 0, 255),
        px(12, 0, 0, 255),
    ];
    let raster = Raster::new(5, 1, pixels);
    let mut sampler = Sampler::from_seed(3);
    let res = kmeans(&config(2, false, false), raster, &mut sampler).unwrap();
    assert_eq!(res.len(), 2);
    // descending by aggregate pixel count, which always totals the opaque
    // pixel count
    assert!(res[0].count >= res[1].count);
    assert_eq!(res[0].count + res[1].count, 5);
}

#[test]
fn clustering_with_k_equal_n() {
    let pixels = vec![px(0, 0, 0, 255), px(100, 100, 100, 255), px(250, 10, 10, 255)];
    let raster = Raster::new(3, 1, pixels);
    let mut sampler = Sampler::from_seed(11);
    let res = kmeans(&config(3, true, false), raster, &mut sampler).unwrap();
    assert_eq!(res.len(), 3);
    let total: u32 = res.iter().map(|c| c.count).sum();
    assert_eq!(total, 3);
}

#[test]
fn hex_string_formatting() {
    assert_eq!(cc(255, 0, 255, 1).to_hex_string(), "#FF00FF");
    assert_eq!(cc(1, 2, 3, 1).to_hex_string(), "#010203");
    assert_eq!(cc(0, 0, 0, 1).to_hex_string(), "#000000");
    assert_eq!(cc(171, 205, 239, 9).to_hex_string(), "#ABCDEF");
}

#[test]
fn closest_centroid_picks_nearest() {
    let centroids = vec![cc(0, 0, 0, 1), cc(100, 100, 100, 1), cc(200, 200, 200, 1)];
    assert_eq!(closest_centroid(&cc(10, 10, 10, 1), &centroids), 0);
    assert_eq!(closest_centroid(&cc(120, 110, 90, 1), &centroids), 1);
    assert_eq!(closest_centroid(&cc(255, 255, 255, 1), &centroids), 2);
}

#[test]
fn closest_centroid_tie_breaks_to_earliest() {
    let centroids = vec![cc(10, 0, 0, 1), cc(30, 0, 0, 1)];
    // the point at distance 100 from both resolves to index 0
    assert_eq!(closest_centroid(&cc(20, 0, 0, 1), &centroids), 0);
}

#[test]
fn self_assignment_is_a_fixed_point() {
    // a converged centroid set fed back as buckets reassigns nothing
    let centroids = vec![cc(10, 0, 0, 4), cc(30, 0, 0, 2), cc(90, 90, 90, 1)];
    for (i, c) in centroids.iter().enumerate() {
        assert_eq!(closest_centroid(c, &centroids), i);
    }
    // and recomputing each singleton group reproduces the centroid
    let groups = vec![
        vec![centroids[0]],
        vec![centroids[1]],
        vec![centroids[2]],
    ];
    assert_eq!(calculate_centroids(&groups, true), centroids);
    assert_eq!(calculate_centroids(&groups, false), centroids);
}

#[test]
fn calculate_centroids_handles_empty_group() {
    let groups = vec![vec![cc(10, 10, 10, 2), cc(20, 20, 20, 2)], Vec::new()];
    let means = calculate_centroids(&groups, true);
    assert_eq!(means, vec![cc(15, 15, 15, 4), cc(0, 0, 0, 0)]);
    let medians = calculate_centroids(&groups, false);
    assert_eq!(medians, vec![cc(20, 20, 20, 4), cc(0, 0, 0, 0)]);
}

#[test]
fn median_takes_upper_middle_of_even_count() {
    let buckets = vec![cc(1, 1, 1, 1), cc(2, 2, 2, 1), cc(3, 3, 3, 1), cc(4, 4, 4, 1)];
    assert_eq!(median(&buckets), cc(3, 3, 3, 4));
}

#[test]
fn sort_is_stable_and_descending() {
    let centroids = vec![
        cc(1, 0, 0, 5),
        cc(2, 0, 0, 9),
        cc(3, 0, 0, 5),
        cc(4, 0, 0, 1),
        cc(5, 0, 0, 9),
    ];
    let sorted = sort_by_count_desc(&centroids);
    assert_eq!(
        sorted,
        vec![cc(2, 0, 0, 9), cc(5, 0, 0, 9), cc(1, 0, 0, 5), cc(3, 0, 0, 5), cc(4, 0, 0, 1)]
    );
}

#[test]
fn seeds_come_from_the_buckets() {
    let colors = vec![cc(0, 0, 0, 3), cc(50, 50, 50, 2), cc(250, 250, 250, 1)];
    let mut sampler = Sampler::from_seed(99);
    let seeds = kmeans_seeds(3, &colors, &mut sampler);
    assert_eq!(seeds.len(), 3);
    for s in &seeds {
        assert!(colors.contains(s));
    }
}

#[test]
fn seeds_stay_distinct_for_distinct_buckets() {
    let colors = vec![
        cc(0, 0, 0, 1),
        cc(1, 0, 0, 1),
        cc(2, 0, 0, 1),
        cc(3, 0, 0, 1),
        cc(200, 200, 200, 1),
    ];
    for seed in 0..20u64 {
        let mut sampler = Sampler::from_seed(seed);
        let seeds = kmeans_seeds(5, &colors, &mut sampler);
        assert_eq!(seeds.len(), 5);
        for a in 0..seeds.len() {
            for b in (a + 1)..seeds.len() {
                assert_ne!(
                    (seeds[a].r, seeds[a].g, seeds[a].b),
                    (seeds[b].r, seeds[b].g, seeds[b].b)
                );
            }
        }
    }
}

#[test]
fn one_cluster_always_succeeds() {
    // with a single requested centroid no bucket can ever be reassigned,
    // so clustering is owed success on any image with an opaque pixel
    let pixels = vec![
        px(5, 6, 7, 255),
        px(8, 9, 10, 255),
        px(200, 100, 50, 255),
        px(5, 6, 7, 255),
    ];
    for seed in 0..20u64 {
        let raster = Raster::new(4, 1, pixels.clone());
        let mut sampler = Sampler::from_seed(seed);
        let res = kmeans(&config(1, seed % 2 == 0, false), raster, &mut sampler).unwrap();
        assert_eq!(res.len(), 1);
        assert_eq!(res[0].count, 4);
    }
}

#[test]
fn sampler_draws_below_the_bound() {
    let mut sampler = Sampler::from_seed(5);
    assert_eq!(sampler.below(1), 0);
    for _ in 0..100 {
        assert!(sampler.below(10) < 10);
    }
}
