use rtile::{get_raw_tile, set_raw_tiles, set_tiles, RTile, Registry};

fn render(reg: &Registry, tile: &RTile) -> String {
    tile.to_string(reg).expect("detected a recursion")
}

fn t(reg: &mut Registry, s: &str) -> RTile {
    RTile::construct_from_str(reg, s).unwrap()
}

fn t_strs(reg: &mut Registry, v: Vec<&str>) -> RTile {
    RTile::new_str(reg, v).unwrap()
}

fn t_tile(reg: &mut Registry, tile: &RTile) -> RTile {
    let text = render(reg, tile);
    t(reg, &text)
}

fn k(reg: &mut Registry, s: &str) -> RTile {
    RTile::from_str_without_trimming(reg, s).unwrap()
}

fn k_strs(reg: &mut Registry, v: Vec<&str>) -> RTile {
    RTile::new_without_trimming_str(reg, v).unwrap()
}

fn k_tile(reg: &mut Registry, tile: &RTile) -> RTile {
    let text = render(reg, tile);
    k(reg, &text)
}

fn register(reg: &mut Registry, name: &str, mut tile: RTile) -> RTile {
    tile.name = Some(name.to_string());
    let text = render(reg, &tile);
    set_tiles(reg, name.to_string(), text);
    set_raw_tiles(reg, name.to_string(), tile.clone());
    tile
}

fn plus(reg: &mut Registry, a: RTile, b: RTile) -> RTile {
    a.add(reg, b).unwrap()
}

fn c_1(tile: &RTile) -> Vec<&str> {
    match tile.lns.len() {
        0 => vec![""],
        1 => vec!["└──", ""],
        n => {
            let mut v = vec!["├──"; n - 1];
            v.push("└──");
            v.push("");
            v
        }
    }
}

fn ct1(reg: &mut Registry, tile: &RTile) -> RTile {
    let tile_pre = k_strs(reg, c_1(tile));
    let left = k_tile(reg, &tile_pre);
    let gap = k(reg, "    ");
    let left = plus(reg, left, gap);
    plus(reg, left, tile.clone())
}

fn registered_height(reg: &mut Registry, name: &str) -> usize {
    match get_raw_tile(reg, name) {
        Some(inner_tile_val) => t_tile(reg, &inner_tile_val).lns.len(),
        None => 0,
    }
}

fn ct2(reg: &mut Registry, tile: &RTile) -> RTile {
    if tile.has_inner_tiles_in_raw_data().unwrap() {
        let inner_tiles_in_raw_data = tile.inner_tiles_in_raw_data().unwrap();
        let mut pre_vec = vec![];
        if inner_tiles_in_raw_data.len() == 1 {
            pre_vec = vec!["└──", ""];
        } else {
            for (index, inner_tiles) in inner_tiles_in_raw_data.iter().enumerate() {
                if index < inner_tiles_in_raw_data.len() - 1 {
                    pre_vec.push("├──");
                    let mut max_len = 0;
                    for name in inner_tiles {
                        let h = registered_height(reg, name);
                        if h > max_len {
                            max_len = h;
                        }
                    }
                    if max_len == 0 {
                        max_len = 1;
                    }
                    for _ in 0..max_len - 1 {
                        pre_vec.push("│");
                    }
                } else {
                    pre_vec.push("└──");
                }
            }
        }
        let tile_pre = k_strs(reg, pre_vec);
        let left = k_tile(reg, &tile_pre);
        let gap = k(reg, "    ");
        let left = plus(reg, left, gap);
        let right = t_tile(reg, tile);
        plus(reg, left, right)
    } else {
        ct1(reg, tile)
    }
}

fn tp_tree(reg: &mut Registry, name: &str, tile: &RTile) {
    let tree = ct2(reg, tile);
    let tree = t_tile(reg, &tree);
    register(reg, name, tree);
}

#[test]
fn test_if_tile_has_inner_tiles() {
    let mut reg = Registry::new();
    let t1 = t_strs(&mut reg, vec!["one", "two", "three"]);
    assert_eq!(t1.has_inner_tiles_in_raw_data().unwrap(), false);

    let g1 = t(
        &mut reg,
        r#"
        group 1
        @{t1}
        @{t2}
        @{t3}
        @{t4}
        "#,
    );
    assert_eq!(g1.has_inner_tiles_in_raw_data().unwrap(), true);
}

#[test]
fn test_inner_tiles_in_raw_data_to_create_tree_view_of_data() {
    let mut reg = Registry::new();
    let x = t_strs(&mut reg, vec!["one", "two", "three"]);
    tp_tree(&mut reg, "t1", &x);

    let x = t_strs(&mut reg, vec!["1", "2", "3", "4", "5"]);
    tp_tree(&mut reg, "t2", &x);

    let x = t_strs(&mut reg, vec!["a", "b", "c", "d", "e", "f", "g"]);
    tp_tree(&mut reg, "t3", &x);

    let x = t_strs(
        &mut reg,
        vec![
            "name 1",
            "name 2",
            "name 3",
            "name 4",
            " name 5",
            "  name 6",
            "     name 7",
        ],
    );
    tp_tree(&mut reg, "t4", &x);

    let x = t_strs(&mut reg, vec!["folder1", "folder2", "folder4"]);
    tp_tree(&mut reg, "t5", &x);

    let x = t_strs(
        &mut reg,
        vec!["file 1", "file 2", "file  3", "  file 4", "   file  5"],
    );
    tp_tree(&mut reg, "t6", &x);

    let x = t_strs(
        &mut reg,
        vec![
            "txt file a",
            " txt file b",
            "txt file c",
            "txt file d",
            "     txt file e",
            "  txt file f",
            "txt file g",
        ],
    );
    tp_tree(&mut reg, "t7", &x);

    let x = t_strs(
        &mut reg,
        vec![
            "directory 1",
            "directory 2",
            "   directory 3",
            "   directory 4",
        ],
    );
    tp_tree(&mut reg, "t8", &x);

    let x = t(
        &mut reg,
        r#"
            group 1
            @{t1}
            @{t2}
            @{t3}
            @{t4}
        "#,
    );
    tp_tree(&mut reg, "g1", &x);

    let x = t(
        &mut reg,
        r#"
            group 2
            @{t5}
            @{t6}
            @{t7}
            @{t8}
        "#,
    );
    tp_tree(&mut reg, "g2", &x);

    let all_groups = t(
        &mut reg,
        r#"
            1 and 2
            @{g1}
            hello
            world
            @{g2}
                                                @{t6}
                                                @{t7}
                                                @{t8}
        "#,
    );
    let all_groups = register(&mut reg, "g_all", all_groups);

    let expected_result_one = t(
        &mut reg,
        EXPECTED_ONE,
    );
    let expected_result_one = render(&reg, &expected_result_one);

    let expected_result_two = t(
        &mut reg,
        EXPECTED_TWO,
    );
    let expected_result_two = render(&reg, &expected_result_two);

    assert_eq!(render(&reg, &all_groups), expected_result_one);
    let tree = ct2(&mut reg, &all_groups);
    let tree = t_tile(&mut reg, &tree);
    assert_eq!(render(&reg, &tree), expected_result_two);
}

const EXPECTED_ONE: &str = r#"
                1 and 2
                ├──    group 1
                ├──    ├──    one
                │      ├──    two
                │      └──    three
                ├──    ├──    1
                │      ├──    2
                │      ├──    3
                │      ├──    4
                │      └──    5
                ├──    ├──    a
                │      ├──    b
                │      ├──    c
                │      ├──    d
                │      ├──    e
                │      ├──    f
                │      └──    g
                └──    ├──    name 1
                       ├──    name 2
                       ├──    name 3
                       ├──    name 4
                       ├──     name 5
                       ├──      name 6
                       └──         name 7
                hello
                world
                ├──    group 2
                ├──    ├──    folder1
                │      ├──    folder2
                │      └──    folder4
                ├──    ├──    file 1
                │      ├──    file 2
                │      ├──    file  3
                │      ├──      file 4
                │      └──       file  5
                ├──    ├──    txt file a
                │      ├──     txt file b
                │      ├──    txt file c
                │      ├──    txt file d
                │      ├──         txt file e
                │      ├──      txt file f
                │      └──    txt file g
                └──    ├──    directory 1
                       ├──    directory 2
                       ├──       directory 3
                       └──       directory 4
                                                    ├──    file 1
                                                    ├──    file 2
                                                    ├──    file  3
                                                    ├──      file 4
                                                    └──       file  5
                                                    ├──    txt file a
                                                    ├──     txt file b
                                                    ├──    txt file c
                                                    ├──    txt file d
                                                    ├──         txt file e
                                                    ├──      txt file f
                                                    └──    txt file g
                                                    ├──    directory 1
                                                    ├──    directory 2
                                                    ├──       directory 3
                                                    └──       directory 4
        "#;

const EXPECTED_TWO: &str = r#"
                ├──    1 and 2
                ├──    ├──    group 1
                │      ├──    ├──    one
                │      │      ├──    two
                │      │      └──    three
                │      ├──    ├──    1
                │      │      ├──    2
                │      │      ├──    3
                │      │      ├──    4
                │      │      └──    5
                │      ├──    ├──    a
                │      │      ├──    b
                │      │      ├──    c
                │      │      ├──    d
                │      │      ├──    e
                │      │      ├──    f
                │      │      └──    g
                │      └──    ├──    name 1
                │             ├──    name 2
                │             ├──    name 3
                │             ├──    name 4
                │             ├──     name 5
                │             ├──      name 6
                │             └──         name 7
                ├──    hello
                ├──    world
                ├──    ├──    group 2
                │      ├──    ├──    folder1
                │      │      ├──    folder2
                │      │      └──    folder4
                │      ├──    ├──    file 1
                │      │      ├──    file 2
                │      │      ├──    file  3
                │      │      ├──      file 4
                │      │      └──       file  5
                │      ├──    ├──    txt file a
                │      │      ├──     txt file b
                │      │      ├──    txt file c
                │      │      ├──    txt file d
                │      │      ├──         txt file e
                │      │      ├──      txt file f
                │      │      └──    txt file g
                │      └──    ├──    directory 1
                │             ├──    directory 2
                │             ├──       directory 3
                │             └──       directory 4
                ├──                                        ├──    file 1
                │                                          ├──    file 2
                │                                          ├──    file  3
                │                                          ├──      file 4
                │                                          └──       file  5
                ├──                                        ├──    txt file a
                │                                          ├──     txt file b
                │                                          ├──    txt file c
                │                                          ├──    txt file d
                │                                          ├──         txt file e
                │                                          ├──      txt file f
                │                                          └──    txt file g
                └──                                        ├──    directory 1
                                                           ├──    directory 2
                                                           ├──       directory 3
                                                           └──       directory 4
        "#;
