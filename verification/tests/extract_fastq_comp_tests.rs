use fastq2comp::extract_comp::SampleArgs;
use fastq2comp::extract_fastq_comp::{BaseComp, ColBaseComp, run};

fn to_lines(text: &str) -> Vec<String> {
    text.lines().map(|l| l.to_string()).collect()
}

#[test]
fn lib_test_extract() {
    let mut read = ColBaseComp::new(0);
    read.extract(&b'A');
    assert_eq!(read.A, 1);

    read.extract(&b'C');
    assert_eq!(read.C, 1);

    read.extract(&b'T');
    assert_eq!(read.T, 1);

    read.extract(&b'G');
    assert_eq!(read.G, 1);

    read.extract(&b'N');
    assert_eq!(read.N, 1);
}

#[test]
fn test_col_percentage() {
    let mut read = ColBaseComp::new(0);
    for c in "AGTCGA".as_bytes().iter() {
        read.extract(c);
    }
    read.percentage();

    assert_eq!(read.A, 33);
    assert_eq!(read.G, 33);
    assert_eq!(read.T, 17);
    assert_eq!(read.C, 17);
    assert_eq!(read.N, 0);
}

#[test]
fn test_init_positions() {
    let comp = BaseComp::init(2);
    assert_eq!(comp.len, 2);
    assert_eq!(comp.lib[0].pos, 1);
    assert_eq!(comp.lib[1].pos, 2);
}

#[test]
fn test_base_comp_jsonify() {
    let mut comp = BaseComp::init(1);
    comp.extract("A");
    assert_eq!(
        comp.jsonify(),
        "{\"lib\":[{\"pos\":1,\"A\":1,\"T\":0,\"G\":0,\"C\":0,\"N\":0}],\"len\":1}"
    );
}

// Two records, no filters, trim length 2, target 1: the loop takes
// one read beyond the target, so both reads are aggregated. The first
// position splits between A and T; the second is all A.
#[test]
fn test_run_two_records() {
    let lines = to_lines("@\nAA\n+\n~~~\n@\nTA\n+\n~~~\n");
    let args = SampleArgs {
        target_read_count: 1,
        min_phred_score: 0,
        n_content: None,
        trimmed_length: Some(2),
    };
    assert_eq!(
        run(args, lines),
        "{\"lib\":[{\"pos\":1,\"A\":50,\"T\":50,\"G\":0,\"C\":0,\"N\":0},\
         {\"pos\":2,\"A\":100,\"T\":0,\"G\":0,\"C\":0,\"N\":0}],\"len\":2}"
    );
}

#[test]
fn test_run_rejects_high_n_read() {
    let lines = to_lines("@\nNN\n+\n~~\n@\nTA\n+\n~~\n");
    let args = SampleArgs {
        target_read_count: 5,
        min_phred_score: 0,
        n_content: Some(1),
        trimmed_length: Some(2),
    };
    assert_eq!(
        run(args, lines),
        "{\"lib\":[{\"pos\":1,\"A\":0,\"T\":100,\"G\":0,\"C\":0,\"N\":0},\
         {\"pos\":2,\"A\":100,\"T\":0,\"G\":0,\"C\":0,\"N\":0}],\"len\":2}"
    );
}

#[test]
fn test_run_no_records() {
    let lines: Vec<String> = Vec::new();
    let args = SampleArgs {
        target_read_count: 1,
        min_phred_score: 0,
        n_content: None,
        trimmed_length: None,
    };
    assert_eq!(run(args, lines), "{\"lib\":[],\"len\":0}");
}
