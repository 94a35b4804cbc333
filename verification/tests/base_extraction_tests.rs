use fastq2comp::base_extraction::{LibReads, Read, run, trim_ascii};

#[test]
fn test_extract() {
    let mut read = Read::new(0);
    read.extract(&b'A');
    assert_eq!(read.A, 1);

    read.extract(&b'C');
    assert_eq!(read.C, 1);

    read.extract(&b'T');
    assert_eq!(read.T, 1);

    read.extract(&b'G');
    assert_eq!(read.G, 1);

    read.extract(&b'N');
    assert_eq!(read.N, 1);
}

#[test]
fn lib_test_percentage() {
    let lines: Vec<String> = vec![
        "AA".to_string(),
        "TA".to_string(),
        "GA".to_string(),
        "CA".to_string(),
        "NA".to_string(),
    ];
    assert_eq!(
        run(&lines),
        "{\"lib\":[{\"pos\":1,\"A\":20,\"T\":20,\"G\":20,\"C\":20,\"N\":20},\
         {\"pos\":2,\"A\":100,\"T\":0,\"G\":0,\"C\":0,\"N\":0}],\"len\":2}"
    );
}

#[test]
fn test_run_empty_input() {
    let lines: Vec<String> = Vec::new();
    assert_eq!(run(&lines), "{\"lib\":[],\"len\":0}");
}

#[test]
fn test_run_ragged_lines_grow_table() {
    let lines: Vec<String> = vec!["A".to_string(), "AT".to_string()];
    assert_eq!(
        run(&lines),
        "{\"lib\":[{\"pos\":1,\"A\":100,\"T\":0,\"G\":0,\"C\":0,\"N\":0},\
         {\"pos\":2,\"A\":0,\"T\":100,\"G\":0,\"C\":0,\"N\":0}],\"len\":2}"
    );
}

#[test]
fn test_as_arr() {
    let r = Read { pos: 3, A: 1, T: 2, G: 3, C: 4, N: 5 };
    assert_eq!(r.as_arr(), [1, 2, 3, 4, 5]);
}

#[test]
fn test_from_iter() {
    let vals = vec![1usize, 2, 3, 4, 5];
    let r = Read::from_iter(&vals, 7);
    assert_eq!(r, Read { pos: 7, A: 1, T: 2, G: 3, C: 4, N: 5 });
}

#[test]
fn test_calc_percentage() {
    let mut r = Read { pos: 0, A: 1, T: 1, G: 1, C: 1, N: 1 };
    r.calc_percentage();
    assert_eq!(r, Read { pos: 0, A: 20, T: 20, G: 20, C: 20, N: 20 });
}

#[test]
fn test_lib_reads_read_trims_whitespace() {
    let mut comp = LibReads { lib: Vec::new(), len: 0 };
    comp.read("  AT \t");
    assert_eq!(comp.lib.len(), 2);
    assert_eq!(comp.lib[0].A, 1);
    assert_eq!(comp.lib[1].T, 1);
}

#[test]
fn test_lib_reads_update() {
    let mut comp = LibReads { lib: Vec::new(), len: 0 };
    comp.read("ACG");
    assert_eq!(comp.len, 0);
    comp.update();
    assert_eq!(comp.len, 3);
}

#[test]
fn test_trim_ascii() {
    assert_eq!(trim_ascii("  AT \t"), "AT");
    assert_eq!(trim_ascii("AT"), "AT");
    assert_eq!(trim_ascii(" \t "), "");
    assert_eq!(trim_ascii(""), "");
}
