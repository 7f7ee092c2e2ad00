use rtile::{get_raw_tile, set_raw_tiles, set_tiles, JoinItem, RTile, Registry};

fn render(reg: &Registry, tile: &RTile) -> String {
    tile.to_string(reg).expect("detected a recursion")
}

fn t(reg: &mut Registry, s: &str) -> RTile {
    RTile::construct_from_str(reg, s).unwrap()
}

fn t_strs(reg: &mut Registry, v: Vec<&str>) -> RTile {
    RTile::new_str(reg, v).unwrap()
}

fn t_tile(reg: &mut Registry, tile: &RTile) -> RTile {
    let text = render(reg, tile);
    t(reg, &text)
}

fn k(reg: &mut Registry, s: &str) -> RTile {
    RTile::from_str_without_trimming(reg, s).unwrap()
}

fn k_strs(reg: &mut Registry, v: Vec<&str>) -> RTile {
    RTile::new_without_trimming_str(reg, v).unwrap()
}

fn k_tile(reg: &mut Registry, tile: &RTile) -> RTile {
    let text = render(reg, tile);
    k(reg, &text)
}

fn register(reg: &mut Registry, name: &str, mut tile: RTile) -> RTile {
    tile.name = Some(name.to_string());
    let text = render(reg, &tile);
    set_tiles(reg, name.to_string(), text);
    set_raw_tiles(reg, name.to_string(), tile.clone());
    tile
}

fn plus(reg: &mut Registry, a: RTile, b: RTile) -> RTile {
    a.add(reg, b).unwrap()
}

fn k_lines(reg: &mut Registry, v: Vec<String>) -> RTile {
    RTile::new_without_trimming(reg, v).unwrap()
}

fn kp(reg: &mut Registry, name: &str, s: &str) -> RTile {
    let tile = k(reg, s);
    register(reg, name, tile)
}

fn tp(reg: &mut Registry, name: &str, s: &str) -> RTile {
    let tile = t(reg, s);
    register(reg, name, tile)
}

fn set_spacing(reg: &mut Registry, width_spacing: usize, height_spacing: usize) {
    let left_right_spaces = vec![" "; width_spacing];
    let tile = k_lines(reg, vec![left_right_spaces.join(""); 1]);
    register(reg, "main_left_right_spaces", tile);
    let top_bottom_spaces = vec![" "; 1];
    let tile = k_lines(reg, vec![top_bottom_spaces.join(""); height_spacing]);
    register(reg, "main_top_bottom_spaces", tile);
}

fn frame_tile(reg: &mut Registry, input: &RTile, width_spacing: usize, height_spacing: usize) -> RTile {
    set_spacing(reg, width_spacing, height_spacing);
    if height_spacing > 0 {
        kp(
            reg,
            "combined_tiles_with_top_bottom_spacing",
            "@{main_top_bottom_spaces}\n@{main_combined_tiles}\n@{main_top_bottom_spaces}",
        );
    } else {
        tp(
            reg,
            "combined_tiles_with_top_bottom_spacing",
            "@{main_top_bottom_spaces}\n@{main_combined_tiles}\n@{main_top_bottom_spaces}",
        );
    }

    let framed = k_tile(reg, input);
    let (width, height) = register(reg, "frame_tile", framed).dimensions();

    let tile = t_strs(reg, vec!["|"; height]);
    register(reg, "main_height", tile);
    tp(reg, "main_width", &vec!["="; width + 2].join(""));

    t(
        reg,
        r#"
                @{main_width}
                @{main_height}@{frame_tile}@{main_height}
                @{main_width}
        "#,
    )
}

fn initialize_frame(reg: &mut Registry) {
    kp(reg, "main_combined_tiles", "@{main_tile_one}@{main_tile_two}");
    kp(
        reg,
        "combined_tiles_with_top_bottom_spacing",
        "@{main_top_bottom_spaces}\n@{main_combined_tiles}\n@{main_top_bottom_spaces}",
    );
    kp(
        reg,
        "main_result_tile",
        "@{main_left_right_spaces}@{combined_tiles_with_top_bottom_spacing}@{main_left_right_spaces}",
    );
}

fn tp_frame(reg: &mut Registry, name: &str, input: &RTile, w: usize, h: usize) {
    let framed = frame_tile(reg, input, w, h);
    let framed = t_tile(reg, &framed);
    register(reg, name, framed);
}

#[test]
fn test_frames() {
    let mut reg = Registry::new();
    initialize_frame(&mut reg);
    kp(&mut reg, "main_tile_one", "Welcome to RTile!     ");
    tp(&mut reg, "main_tile_two", "     Have a great day!     ");

    let template = get_raw_tile(&reg, "main_result_tile").unwrap();
    tp_frame(&mut reg, "f1", &template, 5, 2);

    kp(
        &mut reg,
        "main_tile_one",
        "Reusing the template with different values.     ",
    );
    tp(&mut reg, "main_tile_two", &format!("{:?}", vec![1, 2, 3, 4, 5]));
    let template = get_raw_tile(&reg, "main_result_tile").unwrap();
    tp_frame(&mut reg, "f2", &template, 1, 1);

    let items: Vec<JoinItem> = ["1", "2", "3", "4", "5"]
        .iter()
        .map(|s| JoinItem::Text(s.to_string()))
        .collect();
    let comma = t(&mut reg, ",");
    let last = t(&mut reg, ",");
    let column = comma.vjoin(&mut reg, &items, true, Some(last)).unwrap();
    let text = format!("{} ", render(&reg, &column));
    kp(&mut reg, "main_tile_one", &text);
    let words = t_strs(&mut reg, vec!["one", "two", "three", "four", "five"]);
    register(&mut reg, "main_tile_two", words);
    let template = get_raw_tile(&reg, "main_result_tile").unwrap();
    let result = t_tile(&mut reg, &template);
    tp_frame(&mut reg, "f3", &result, 0, 0);

    let dimensions = result.dimensions();
    let again = k_tile(&mut reg, &result);
    register(&mut reg, "main_tile_one", again);
    let arrows = k_strs(&mut reg, vec!["      <== "; dimensions.1]);
    let flags = t_strs(
        &mut reg,
        vec![23, 4, 5, 7, 10]
            .iter()
            .map(|x| if x % 2 == 0 { "true" } else { "false" })
            .collect::<Vec<&str>>(),
    );
    let joined = plus(&mut reg, arrows, flags);
    let joined = k_tile(&mut reg, &joined);
    register(&mut reg, "main_tile_two", joined);
    let template = get_raw_tile(&reg, "main_result_tile").unwrap();
    tp_frame(&mut reg, "f4", &template, 5, 0);

    kp(&mut reg, "main_tile_one", "1 ");
    kp(&mut reg, "main_tile_two", "   One");
    let template = get_raw_tile(&reg, "main_result_tile").unwrap();
    tp_frame(&mut reg, "f5", &template, 0, 0);
    let template = get_raw_tile(&reg, "main_result_tile").unwrap();
    tp_frame(&mut reg, "f6", &template, 5, 0);
    let template = get_raw_tile(&reg, "main_result_tile").unwrap();
    tp_frame(&mut reg, "f7", &template, 0, 2);
    let template = get_raw_tile(&reg, "main_result_tile").unwrap();
    tp_frame(&mut reg, "f8", &template, 2, 2);

    let result = t(
        &mut reg,
        r#"
            @{f1}
            @{f2}
            @{f3}
            @{f4}
            @{f5}
            @{f6}
            @{f7}
            @{f8}
        "#,
    );

    let expected_result = t(&mut reg, EXPECTED);
    assert_eq!(render(&reg, &result), render(&reg, &expected_result));
}

const EXPECTED: &str = r#"
                                ===================================================
                                |                                                 |
                                |                                                 |
                                |     Welcome to RTile!     Have a great day!     |
                                |                                                 |
                                |                                                 |
                                ===================================================
                                ===================================================================
                                |                                                                 |
                                | Reusing the template with different values.     [1, 2, 3, 4, 5] |
                                |                                                                 |
                                ===================================================================
                                ==========
                                |1, one  |
                                |2, two  |
                                |3, three|
                                |4, four |
                                |5, five |
                                ==========
                                ===================================
                                |     1, one        <== false     |
                                |     2, two        <== true      |
                                |     3, three      <== false     |
                                |     4, four       <== false     |
                                |     5, five       <== true      |
                                ===================================
                                ==========
                                |1    One|
                                ==========
                                ====================
                                |     1    One     |
                                ====================
                                ==========
                                |        |
                                |        |
                                |1    One|
                                |        |
                                |        |
                                ==========
                                ==============
                                |            |
                                |            |
                                |  1    One  |
                                |            |
                                |            |
                                ==============
                        "#;
