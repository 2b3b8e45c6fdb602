use tree_sync::compiler::{compile, CompileError};
use tree_sync::instruction::{join_path, Instruction};
use tree_sync::tree::InstanceNode;

fn node(name: &str, class: &str) -> InstanceNode {
    InstanceNode::new(name.to_string(), class.to_string())
}

fn with_prop(mut n: InstanceNode, key: &str, value: &str) -> InstanceNode {
    n.add_property(key.to_string(), value.to_string());
    n
}

fn path(segments: &[&str]) -> Vec<Vec<u8>> {
    segments.iter().map(|s| s.as_bytes().to_vec()).collect()
}

fn root_with(children: Vec<InstanceNode>) -> InstanceNode {
    let mut root = node("DataModel", "DataModel");
    for c in children {
        root.add_child(c);
    }
    root
}

fn example_tree() -> InstanceNode {
    let mut a = node("A", "Folder");
    a.add_child(with_prop(node("B", "StringValue"), "Value", "hello"));
    root_with(vec![a])
}

#[test]
fn example_compiles_to_two_instructions() {
    let out = compile(&example_tree()).unwrap();
    assert_eq!(
        out,
        vec![
            Instruction::CreateFolder { path: path(&["A"]) },
            Instruction::CreateFile { path: path(&["A", "B"]), contents: b"hello".to_vec() },
        ]
    );
    assert_eq!(join_path(out[1].path()), b"A/B".to_vec());
}

#[test]
fn empty_root_compiles_to_nothing() {
    let out = compile(&node("DataModel", "DataModel")).unwrap();
    assert!(out.is_empty());
}

#[test]
fn unknown_class_fails_with_its_path() {
    let mut a = node("A", "Folder");
    a.add_child(with_prop(node("First", "StringValue"), "Value", "x"));
    a.add_child(node("Noise", "Sound"));
    a.add_child(with_prop(node("Last", "StringValue"), "Value", "y"));
    let r = compile(&root_with(vec![a]));
    assert_eq!(r, Err(CompileError::UnknownClass { path: path(&["A", "Noise"]) }));
}

#[test]
fn script_without_source_fails() {
    let r = compile(&root_with(vec![node("Main", "Script")]));
    assert_eq!(r, Err(CompileError::MissingProperty { path: path(&["Main"]) }));
}

#[test]
fn siblings_with_one_name_collide() {
    let r = compile(&root_with(vec![node("A", "Folder"), node("A", "Folder")]));
    assert_eq!(r, Err(CompileError::PathCollision { path: path(&["A"]) }));
}

#[test]
fn escaped_names_can_collide() {
    let r = compile(&root_with(vec![
        with_prop(node("a/b", "StringValue"), "Value", "1"),
        with_prop(node("a_b", "StringValue"), "Value", "2"),
    ]));
    assert_eq!(r, Err(CompileError::PathCollision { path: path(&["a_b"]) }));
}

#[test]
fn init_file_collides_with_child_named_init() {
    let mut m = with_prop(node("M", "ModuleScript"), "Source", "return 1");
    m.add_child(with_prop(node("init", "ModuleScript"), "Source", "return 2"));
    let r = compile(&root_with(vec![m]));
    assert_eq!(r, Err(CompileError::PathCollision { path: path(&["M", "init.lua"]) }));
}

#[test]
fn names_are_escaped_into_segments() {
    let out = compile(&root_with(vec![
        node("x/y", "Folder"),
        node("..", "Folder"),
        node("", "Folder"),
        node(".", "Folder"),
        node("back\\slash", "Folder"),
    ]))
    .unwrap();
    let paths: Vec<Vec<u8>> = out.iter().map(|i| join_path(i.path())).collect();
    assert_eq!(
        paths,
        vec![
            b"x_y".to_vec(),
            b"_..".to_vec(),
            b"_".to_vec(),
            b"_.".to_vec(),
            b"back_slash".to_vec(),
        ]
    );
}

#[test]
fn script_classes_take_their_suffixes() {
    let out = compile(&root_with(vec![
        with_prop(node("S", "Script"), "Source", "print(1)"),
        with_prop(node("C", "LocalScript"), "Source", "print(2)"),
        with_prop(node("M", "ModuleScript"), "Source", "return {}"),
    ]))
    .unwrap();
    assert_eq!(
        out,
        vec![
            Instruction::CreateFile { path: path(&["S.server.lua"]), contents: b"print(1)".to_vec() },
            Instruction::CreateFile { path: path(&["C.client.lua"]), contents: b"print(2)".to_vec() },
            Instruction::CreateFile { path: path(&["M.lua"]), contents: b"return {}".to_vec() },
        ]
    );
}

#[test]
fn first_source_property_wins() {
    let s = with_prop(with_prop(node("S", "Script"), "Source", "one"), "Source", "two");
    let out = compile(&root_with(vec![s])).unwrap();
    assert_eq!(
        out,
        vec![Instruction::CreateFile { path: path(&["S.server.lua"]), contents: b"one".to_vec() }]
    );
}

#[test]
fn script_with_children_becomes_folder_with_init() {
    let mut s = with_prop(node("Main", "Script"), "Source", "run()");
    s.add_child(with_prop(node("Util", "ModuleScript"), "Source", "return 1"));
    let out = compile(&root_with(vec![s])).unwrap();
    assert_eq!(
        out,
        vec![
            Instruction::CreateFolder { path: path(&["Main"]) },
            Instruction::CreateFile {
                path: path(&["Main", "init.server.lua"]),
                contents: b"run()".to_vec(),
            },
            Instruction::CreateFile { path: path(&["Main", "Util.lua"]), contents: b"return 1".to_vec() },
        ]
    );
}

#[test]
fn generic_class_uses_line_encoding() {
    let m = with_prop(with_prop(node("Box", "Model"), "Size", "4"), "Note", "a\nb=c\\");
    let out = compile(&root_with(vec![m])).unwrap();
    assert_eq!(
        out,
        vec![Instruction::CreateFile {
            path: path(&["Box.model"]),
            contents: b"Model\nSize=4\nNote=a\\nb\\=c\\\\\n".to_vec(),
        }]
    );
}

#[test]
fn generic_class_with_children_keeps_its_properties_in_init() {
    let mut m = with_prop(node("Car", "Model"), "Color", "red");
    m.add_child(node("Wheel", "Part"));
    let out = compile(&root_with(vec![m])).unwrap();
    assert_eq!(
        out,
        vec![
            Instruction::CreateFolder { path: path(&["Car"]) },
            Instruction::CreateFile {
                path: path(&["Car", "init.model"]),
                contents: b"Model\nColor=red\n".to_vec(),
            },
            Instruction::CreateFile { path: path(&["Car", "Wheel.model"]), contents: b"Part\n".to_vec() },
        ]
    );
}

fn deep_tree() -> InstanceNode {
    let mut inner = node("Inner", "Folder");
    inner.add_child(with_prop(node("Leaf", "ModuleScript"), "Source", "return 0"));
    inner.add_child(node("Empty", "Folder"));
    let mut outer = node("Outer", "Folder");
    outer.add_child(inner);
    outer.add_child(with_prop(node("Note", "StringValue"), "Value", "n"));
    let mut cfg = node("Cfg", "Configuration");
    cfg.add_property("Mode".to_string(), "fast".to_string());
    root_with(vec![outer, cfg])
}

#[test]
fn every_path_comes_after_its_folders() {
    let out = compile(&deep_tree()).unwrap();
    for (k, ins) in out.iter().enumerate() {
        let p = ins.path();
        for m in 1..p.len() {
            let prefix = p[..m].to_vec();
            assert!(out[..k]
                .iter()
                .any(|e| *e == Instruction::CreateFolder { path: prefix.clone() }));
        }
    }
    assert_eq!(out.len(), 6);
}

#[test]
fn compiled_paths_are_distinct() {
    let out = compile(&deep_tree()).unwrap();
    for i in 0..out.len() {
        for j in (i + 1)..out.len() {
            assert_ne!(out[i].path(), out[j].path());
        }
    }
}

#[test]
fn compiling_twice_gives_the_same_stream() {
    let tree = deep_tree();
    assert_eq!(compile(&tree), compile(&tree));
    let bad = root_with(vec![node("X", "Sound")]);
    assert_eq!(compile(&bad), compile(&bad));
}

#[test]
fn unknown_class_with_children_is_a_folder() {
    let mut w = node("Workspace", "Workspace");
    w.add_child(node("Inner", "Folder"));
    let out = compile(&root_with(vec![w])).unwrap();
    assert_eq!(
        out,
        vec![
            Instruction::CreateFolder { path: path(&["Workspace"]) },
            Instruction::CreateFolder { path: path(&["Workspace", "Inner"]) },
        ]
    );
}

#[test]
fn error_names_the_first_faulty_node_in_pre_order() {
    let mut tool = node("Tool", "Tool");
    tool.add_child(node("Handle", "Sound"));
    let r = compile(&root_with(vec![tool, node("Main", "Script")]));
    assert_eq!(r, Err(CompileError::UnknownClass { path: path(&["Tool", "Handle"]) }));
    let mut f = node("F", "Folder");
    f.add_child(node("S", "LocalScript"));
    let r = compile(&root_with(vec![f, node("Later", "Sound")]));
    assert_eq!(r, Err(CompileError::MissingProperty { path: path(&["F", "S"]) }));
}

#[test]
fn collision_names_the_repeated_path() {
    let mut a = node("A", "Folder");
    a.add_child(with_prop(node("x.lua", "StringValue"), "Value", "1"));
    a.add_child(with_prop(node("x", "ModuleScript"), "Source", "2"));
    let r = compile(&root_with(vec![a]));
    assert_eq!(r, Err(CompileError::PathCollision { path: path(&["A", "x.lua"]) }));
}
