use k_mst::read_input::{InputError, ReadInput};

fn args(v: &[&str]) -> Vec<String> {
    v.iter().map(|a| a.to_string()).collect()
}

#[test]
fn test_new_no_args() {
    let args = vec!["program".to_string()];
    let result = ReadInput::new(args);
    assert!(matches!(result, Err(InputError::NoArgs)));
}

#[test]
fn test_new_with_args() {
    let args = vec!["program".to_string(), "-p".to_string(), "1".to_string()];
    let result = ReadInput::new(args);
    assert!(result.is_ok());
}

#[test]
fn test_get_seed_single_number() {
    let args = vec!["program".to_string(), "-s".to_string(), "5".to_string()];
    let mut ri = ReadInput::new(args).unwrap();
    let seeds = ri.get_seed().unwrap();
    assert_eq!(seeds, vec![5]);
}

#[test]
fn test_get_seed_range() {
    let args = vec!["program".to_string(), "-s".to_string(), "3".to_string(), "5".to_string()];
    let mut ri = ReadInput::new(args).unwrap();
    let seeds = ri.get_seed().unwrap();
    assert_eq!(seeds, vec![3, 4, 5]);
}

#[test]
fn test_get_seed_rs() {
    let args = vec!["program".to_string(), "-rs".to_string(), "10".to_string()];
    let mut ri = ReadInput::new(args).unwrap();
    let seeds = ri.get_seed().unwrap();
    assert_eq!(seeds.len(), 10);
}

#[test]
fn test_get_help() {
    let args = vec!["program".to_string(), "-h".to_string()];
    let ri = ReadInput::new(args).unwrap();
    assert!(ri.get_help());

    let args2 = vec!["program".to_string(), "--help".to_string()];
    let ri2 = ReadInput::new(args2).unwrap();
    assert!(ri2.get_help());
}

#[test]
fn test_invalid_seed() {
    let args = vec!["program".to_string(), "-s".to_string(), "10".to_string(), "5".to_string()];
    let mut ri = ReadInput::new(args).unwrap();
    let res = ri.get_seed();
    assert!(matches!(res, Err(InputError::InvalidSeed)));
}

#[test]
fn test_get_verbose() {
    let args = vec!["program".to_string(), "-v".to_string()];
    let ri = ReadInput::new(args).unwrap();
    assert!(ri.get_verbose());
}

#[test]
fn test_get_svg() {
    let args = vec!["program".to_string(), "-svg".to_string()];
    let ri = ReadInput::new(args).unwrap();
    assert!(ri.get_svg());
}

#[test]
fn flags_absent() {
    let ri = ReadInput::new(args(&["program", "-k", "3"])).unwrap();
    assert!(!ri.get_verbose());
    assert!(!ri.get_svg());
    assert!(!ri.get_help());
}

#[test]
fn file_path_cases() {
    let ri = ReadInput::new(args(&["program", "-p", "graph.txt"])).unwrap();
    assert_eq!(ri.get_file_path().unwrap(), "graph.txt".to_string());

    let ri = ReadInput::new(args(&["program", "-p"])).unwrap();
    assert!(matches!(ri.get_file_path(), Err(InputError::FileNotFound(_))));

    let ri = ReadInput::new(args(&["program", "-p", "fileNotType.s"])).unwrap();
    assert!(matches!(ri.get_file_path(), Err(InputError::InvalidFormat(_))));

    let ri = ReadInput::new(args(&["program", "-k", "3"])).unwrap();
    assert!(matches!(ri.get_file_path(), Err(InputError::InvalidPath(_))));
}

#[test]
fn read_content_parses_lines() {
    let mut ri = ReadInput::new(args(&["program"; 2])).unwrap();
    let edges = ri.read_content("1,  2,3\n2,3 ,6\r\n 1 ,  3,+23\n").unwrap();
    assert_eq!(
        edges,
        vec![
            ("1".to_string(), "2".to_string(), 3),
            ("2".to_string(), "3".to_string(), 6),
            ("1".to_string(), "3".to_string(), 23),
        ]
    );
    // Kept once read.
    assert_eq!(ri.read_content("x,y,1").unwrap(), edges);
}

#[test]
fn read_content_without_final_newline() {
    let mut ri = ReadInput::new(args(&["program"; 2])).unwrap();
    let edges = ri.read_content("A,B,4294967295").unwrap();
    assert_eq!(edges, vec![("A".to_string(), "B".to_string(), 4294967295)]);
    let mut empty = ReadInput::new(args(&["program"; 2])).unwrap();
    assert_eq!(empty.read_content("").unwrap(), vec![]);
}

#[test]
fn read_content_rejects_malformed_lines() {
    let mut ri = ReadInput::new(args(&["program"; 2])).unwrap();
    assert!(matches!(ri.read_content("1,2\n"), Err(InputError::InvalidFormat(_))));
    assert!(matches!(ri.read_content("1,2,3,4\n"), Err(InputError::InvalidFormat(_))));
    assert!(matches!(ri.read_content("1,2,x\n"), Err(InputError::InvalidFormat(_))));
    assert!(matches!(ri.read_content("1,2,3.2\n"), Err(InputError::InvalidFormat(_))));
    assert!(matches!(ri.read_content("1,2,4294967296\n"), Err(InputError::InvalidFormat(_))));
    assert!(matches!(ri.read_content("1,2,3\n\n"), Err(InputError::InvalidFormat(_))));
    assert!(ri.graph.is_empty());
}

#[test]
fn k_nodes_cases() {
    let mut ri = ReadInput::new(args(&["program", "-k", "40"])).unwrap();
    assert_eq!(ri.get_k_nodes().unwrap(), 40);
    assert_eq!(ri.k_nodes, 40);

    let mut ri = ReadInput::new(args(&["program", "-k"])).unwrap();
    assert!(matches!(ri.get_k_nodes(), Err(InputError::InvalidFormat(_))));

    let mut ri = ReadInput::new(args(&["program", "-k", "-3"])).unwrap();
    assert!(matches!(ri.get_k_nodes(), Err(InputError::InvalidFormat(_))));

    let mut ri = ReadInput::new(args(&["program", "-v"])).unwrap();
    assert!(matches!(ri.get_k_nodes(), Err(InputError::InvalidPath(_))));
}

#[test]
fn seed_cases() {
    let mut ri = ReadInput::new(args(&["program", "-s", "1", "-rs", "3"])).unwrap();
    assert!(matches!(ri.get_seed(), Err(InputError::InvalidArgumentSeed)));

    let mut ri = ReadInput::new(args(&["program", "-v"])).unwrap();
    assert!(matches!(ri.get_seed(), Err(InputError::InvalidSeed)));

    let mut ri = ReadInput::new(args(&["program", "-s"])).unwrap();
    assert!(matches!(ri.get_seed(), Err(InputError::InvalidFormat(_))));

    let mut ri = ReadInput::new(args(&["program", "-s", "abc"])).unwrap();
    assert!(matches!(ri.get_seed(), Err(InputError::InvalidSeed)));

    let mut ri = ReadInput::new(args(&["program", "-s", "-7", "-v"])).unwrap();
    assert_eq!(ri.get_seed().unwrap(), vec![-7]);
    assert_eq!(ri.seeds, vec![-7]);

    let mut ri = ReadInput::new(args(&["program", "-s", "-2", "1"])).unwrap();
    assert_eq!(ri.get_seed().unwrap(), vec![-2, -1, 0, 1]);

    let mut ri = ReadInput::new(args(&["program", "-rs", "0"])).unwrap();
    assert!(matches!(ri.get_seed(), Err(InputError::InvalidSeed)));

    let mut ri = ReadInput::new(args(&["program", "-rs"])).unwrap();
    assert!(matches!(ri.get_seed(), Err(InputError::InvalidFormat(_))));
}

#[test]
fn error_texts() {
    assert_eq!(InputError::FileNotFound("x".to_string()).to_string(), "File not found: x".to_string());
    assert_eq!(InputError::InvalidFormat("y".to_string()).to_string(), "Invalid format: y".to_string());
    assert_eq!(InputError::InvalidPath("z".to_string()).to_string(), "Invalid path: z".to_string());
    assert_eq!(InputError::NoArgs.to_string(), "Faltan argumentos".to_string());
    assert_eq!(InputError::InvalidArgumentSeed.to_string(), "No se pueden usar ambos argumentos".to_string());
    assert_eq!(InputError::InvalidSeed.to_string(), "Seed inválida".to_string());
}

#[test]
fn read_content_trims_unicode_space() {
    let mut ri = ReadInput::new(args(&["program"; 2])).unwrap();
    let edges = ri.read_content("\u{a0}A\u{3000},\tB ,\u{2003}7\n").unwrap();
    assert_eq!(edges, vec![("A".to_string(), "B".to_string(), 7)]);
}
