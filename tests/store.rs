use tree_sync::compiler::CompileError;
use tree_sync::instruction::Instruction;
use tree_sync::tree::InstanceNode;
use tree_sync::vfs::{process_instructions, ApplyError, EntryKind, InstructionReader, ProcessError, VirtualFileSystem};

fn node(name: &str, class: &str) -> InstanceNode {
    InstanceNode::new(name.to_string(), class.to_string())
}

fn with_prop(mut n: InstanceNode, key: &str, value: &str) -> InstanceNode {
    n.add_property(key.to_string(), value.to_string());
    n
}

fn path(segments: &[&str]) -> Vec<Vec<u8>> {
    segments.iter().map(|s| s.as_bytes().to_vec()).collect()
}

fn root_with(children: Vec<InstanceNode>) -> InstanceNode {
    let mut root = node("DataModel", "DataModel");
    for c in children {
        root.add_child(c);
    }
    root
}

fn example_tree() -> InstanceNode {
    let mut a = node("A", "Folder");
    a.add_child(with_prop(node("B", "StringValue"), "Value", "hello"));
    root_with(vec![a])
}

#[test]
fn example_state_is_folder_holding_text() {
    let vfs = VirtualFileSystem::from_tree(&example_tree()).unwrap();
    assert_eq!(vfs.get(&path(&["A"])), Some(&EntryKind::Folder));
    assert_eq!(vfs.get(&path(&["A", "B"])), Some(&EntryKind::File(b"hello".to_vec())));
    assert_eq!(vfs.get(&path(&["B"])), None);
}

#[test]
fn round_trip_reproduces_every_node() {
    let mut s = with_prop(node("Main", "Script"), "Source", "run()");
    s.add_child(with_prop(node("Util", "ModuleScript"), "Source", "return 1"));
    let mut f = node("Shared", "Folder");
    f.add_child(s);
    f.add_child(node("Empty", "Folder"));
    let tree = root_with(vec![f, with_prop(node("Tag", "StringValue"), "Value", "v1")]);
    let vfs = VirtualFileSystem::from_tree(&tree).unwrap();
    assert_eq!(vfs.get(&path(&["Shared"])), Some(&EntryKind::Folder));
    assert_eq!(vfs.get(&path(&["Shared", "Main"])), Some(&EntryKind::Folder));
    assert_eq!(
        vfs.get(&path(&["Shared", "Main", "init.server.lua"])),
        Some(&EntryKind::File(b"run()".to_vec()))
    );
    assert_eq!(
        vfs.get(&path(&["Shared", "Main", "Util.lua"])),
        Some(&EntryKind::File(b"return 1".to_vec()))
    );
    assert_eq!(vfs.get(&path(&["Shared", "Empty"])), Some(&EntryKind::Folder));
    assert_eq!(vfs.get(&path(&["Tag"])), Some(&EntryKind::File(b"v1".to_vec())));
}

#[test]
fn fixture_check_accepts_the_recorded_state() {
    let mut fixture = VirtualFileSystem::new();
    fixture.apply(&Instruction::CreateFolder { path: path(&["A"]) }).unwrap();
    fixture
        .apply(&Instruction::CreateFile { path: path(&["A", "B"]), contents: b"hello".to_vec() })
        .unwrap();
    let first = VirtualFileSystem::from_tree(&example_tree()).unwrap();
    let second = VirtualFileSystem::from_tree(&example_tree()).unwrap();
    assert!(first.same_state(&fixture));
    assert!(second.same_state(&fixture));
    assert!(fixture.same_state(&first));
}

#[test]
fn fixture_check_reports_a_mismatch() {
    let mut fixture = VirtualFileSystem::new();
    fixture.apply(&Instruction::CreateFolder { path: path(&["A"]) }).unwrap();
    fixture
        .apply(&Instruction::CreateFile { path: path(&["A", "B"]), contents: b"hullo".to_vec() })
        .unwrap();
    let vfs = VirtualFileSystem::from_tree(&example_tree()).unwrap();
    assert!(!vfs.same_state(&fixture));
    let mut smaller = VirtualFileSystem::new();
    smaller.apply(&Instruction::CreateFolder { path: path(&["A"]) }).unwrap();
    assert!(!vfs.same_state(&smaller));
    assert!(!smaller.same_state(&vfs));
}

#[test]
fn failed_compilation_reaches_no_consumer() {
    let mut a = node("A", "Folder");
    a.add_child(node("Noise", "Sound"));
    let tree = root_with(vec![node("Before", "Folder"), a]);
    let mut vfs = VirtualFileSystem::new();
    let r = process_instructions(&tree, &mut vfs);
    assert_eq!(
        r,
        Err(ProcessError::Compile(CompileError::UnknownClass { path: path(&["A", "Noise"]) }))
    );
    assert_eq!(vfs.get(&path(&["Before"])), None);
    assert_eq!(vfs.get(&path(&["A"])), None);
    assert_eq!(
        VirtualFileSystem::from_tree(&tree).err(),
        Some(CompileError::UnknownClass { path: path(&["A", "Noise"]) })
    );
}

#[test]
fn process_instructions_fills_the_store() {
    let mut vfs = VirtualFileSystem::new();
    assert_eq!(process_instructions(&example_tree(), &mut vfs), Ok(()));
    assert_eq!(vfs.get(&path(&["A", "B"])), Some(&EntryKind::File(b"hello".to_vec())));
}

#[test]
fn consumer_refuses_a_missing_parent() {
    let mut vfs = VirtualFileSystem::new();
    let r = vfs.apply(&Instruction::CreateFile { path: path(&["X", "Y"]), contents: vec![1] });
    assert_eq!(r, Err(ApplyError::MissingParent));
    assert_eq!(vfs.get(&path(&["X", "Y"])), None);
}

#[test]
fn consumer_refuses_a_file_as_parent() {
    let mut vfs = VirtualFileSystem::new();
    vfs.apply(&Instruction::CreateFile { path: path(&["X"]), contents: vec![1] }).unwrap();
    let r = vfs.apply(&Instruction::CreateFolder { path: path(&["X", "Y"]) });
    assert_eq!(r, Err(ApplyError::MissingParent));
}

#[test]
fn consumer_refuses_an_existing_path() {
    let mut vfs = VirtualFileSystem::new();
    vfs.apply(&Instruction::CreateFolder { path: path(&["X"]) }).unwrap();
    let r = vfs.apply(&Instruction::CreateFile { path: path(&["X"]), contents: vec![] });
    assert_eq!(r, Err(ApplyError::AlreadyExists));
    assert_eq!(vfs.get(&path(&["X"])), Some(&EntryKind::Folder));
}

#[test]
fn consumer_refuses_an_empty_path() {
    let mut vfs = VirtualFileSystem::new();
    let r = vfs.apply(&Instruction::CreateFolder { path: vec![] });
    assert_eq!(r, Err(ApplyError::EmptyPath));
}

#[test]
fn consumer_refuses_removal() {
    let mut vfs = VirtualFileSystem::new();
    vfs.apply(&Instruction::CreateFolder { path: path(&["X"]) }).unwrap();
    let r = vfs.apply(&Instruction::Remove { path: path(&["X"]) });
    assert_eq!(r, Err(ApplyError::Unsupported));
    assert_eq!(vfs.get(&path(&["X"])), Some(&EntryKind::Folder));
}

#[test]
fn apply_all_stops_at_first_refusal() {
    let mut vfs = VirtualFileSystem::new();
    let stream = vec![
        Instruction::CreateFolder { path: path(&["A"]) },
        Instruction::CreateFolder { path: path(&["Z", "Q"]) },
        Instruction::CreateFolder { path: path(&["C"]) },
    ];
    assert_eq!(vfs.apply_all(&stream), Err(ApplyError::MissingParent));
    assert_eq!(vfs.get(&path(&["A"])), Some(&EntryKind::Folder));
    assert_eq!(vfs.get(&path(&["C"])), None);
}

#[test]
fn check_fixture_compares_against_the_record() {
    let mut fixture = VirtualFileSystem::new();
    fixture.apply(&Instruction::CreateFolder { path: path(&["A"]) }).unwrap();
    fixture
        .apply(&Instruction::CreateFile { path: path(&["A", "B"]), contents: b"hello".to_vec() })
        .unwrap();
    assert_eq!(tree_sync::vfs::check_fixture(&example_tree(), &fixture), Ok(true));
    let other = root_with(vec![node("A", "Folder")]);
    assert_eq!(tree_sync::vfs::check_fixture(&other, &fixture), Ok(false));
    let bad = root_with(vec![node("A", "Script")]);
    assert_eq!(
        tree_sync::vfs::check_fixture(&bad, &fixture),
        Err(CompileError::MissingProperty { path: path(&["A"]) })
    );
}

#[test]
fn read_instruction_builds_the_example_store() {
    let mut vfs = VirtualFileSystem::new();
    assert_eq!(vfs.read_instruction(&Instruction::CreateFolder { path: path(&["A"]) }), Ok(()));
    assert_eq!(
        vfs.read_instruction(&Instruction::CreateFile {
            path: path(&["A", "B"]),
            contents: b"hello".to_vec(),
        }),
        Ok(())
    );
    assert_eq!(vfs.get(&path(&["A"])), Some(&EntryKind::Folder));
    assert_eq!(vfs.get(&path(&["A", "B"])), Some(&EntryKind::File(b"hello".to_vec())));
}

#[test]
fn read_instruction_keeps_binary_contents() {
    let mut vfs = VirtualFileSystem::new();
    vfs.read_instruction(&Instruction::CreateFolder { path: path(&["A"]) }).unwrap();
    vfs.read_instruction(&Instruction::CreateFile { path: path(&["A", "bin"]), contents: vec![0xFF, 0x00] })
        .unwrap();
    assert_eq!(vfs.get(&path(&["A", "bin"])), Some(&EntryKind::File(vec![0xFF, 0x00])));
}

#[test]
fn read_instruction_refuses_missing_parent_and_removal() {
    let mut vfs = VirtualFileSystem::new();
    let r = vfs.read_instruction(&Instruction::CreateFile {
        path: path(&["A", "B"]),
        contents: b"hello".to_vec(),
    });
    assert_eq!(r, Err(ApplyError::MissingParent));
    assert_eq!(vfs.get(&path(&["A", "B"])), None);
    vfs.read_instruction(&Instruction::CreateFolder { path: path(&["A"]) }).unwrap();
    let r = vfs.read_instruction(&Instruction::Remove { path: path(&["A"]) });
    assert_eq!(r, Err(ApplyError::Unsupported));
    assert_eq!(vfs.get(&path(&["A"])), Some(&EntryKind::Folder));
}

#[test]
fn process_instructions_on_an_empty_tree_succeeds() {
    let mut vfs = VirtualFileSystem::new();
    assert_eq!(process_instructions(&node("DataModel", "DataModel"), &mut vfs), Ok(()));
    assert!(vfs.same_state(&VirtualFileSystem::new()));
}

#[test]
fn process_instructions_reports_the_replay_refusal() {
    let mut vfs = VirtualFileSystem::new();
    vfs.apply(&Instruction::CreateFolder { path: path(&["A"]) }).unwrap();
    let r = process_instructions(&example_tree(), &mut vfs);
    assert_eq!(r, Err(ProcessError::Apply(ApplyError::AlreadyExists)));
}
