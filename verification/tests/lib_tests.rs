use fastq2comp::{BaseComp, BaseCompCol, BaseCompColBases};

#[test]
fn test_iterability() {
    // test if conversion TO the value list works
    let mut read = BaseCompCol::new(0);
    read.extract(&b'A');

    let vals = read.bases.iter();
    assert_eq!(vals[0], 1);
    assert_eq!(vals[1], 0);

    // test if conversion FROM the value list works
    let mut read = BaseCompCol::new(0);
    read.extract(&b'A');

    let vals = read.bases.iter();
    let converted_read = BaseCompColBases::from_iter(&vals);

    assert_eq!(converted_read, BaseCompColBases { A: 1, T: 0, G: 0, C: 0, N: 0 });
}

#[test]
fn test_base_comp_col_extract() {
    let mut read = BaseCompCol::new(0);
    read.extract(&b'A');
    assert_eq!(read.bases.A, 1);

    read.extract(&b'C');
    assert_eq!(read.bases.C, 1);

    read.extract(&b'T');
    assert_eq!(read.bases.T, 1);

    read.extract(&b'G');
    assert_eq!(read.bases.G, 1);

    read.extract(&b'N');
    assert_eq!(read.bases.N, 1);
}

#[test]
fn test_percentage() {
    let mut read = BaseCompCol::new(0);
    for c in "ACTGN".as_bytes().iter() {
        read.extract(c);
    }
    read.bases.percentage();

    println!("{:?}", read);

    assert_eq!(read.bases.A, 20, "Testing A");
    assert_eq!(read.bases.C, 20, "Testing C");
    assert_eq!(read.bases.T, 20, "Testing T");
    assert_eq!(read.bases.G, 20, "Testing G");
    assert_eq!(read.bases.N, 20, "Testing N");
}

// Calling percentage a second time on the same column is invalid:
// the counts are gone, so it silently computes percentages of
// percentages. The result is corrupted, not a crash.
#[test]
fn test_percentage_twice_corrupts() {
    let mut bases = BaseCompColBases { A: 1, T: 1, G: 1, C: 1, N: 4 };
    bases.percentage();
    assert_eq!(bases, BaseCompColBases { A: 13, T: 13, G: 13, C: 13, N: 50 });

    bases.percentage();
    assert_eq!(bases, BaseCompColBases { A: 13, T: 13, G: 13, C: 13, N: 49 });
}

// The five rounded percentages can add up to a little more than 100:
// here four halves round up, giving 102.
#[test]
fn test_percentage_rounding_total() {
    let mut bases = BaseCompColBases { A: 1, T: 1, G: 1, C: 1, N: 4 };
    bases.percentage();
    let total = bases.A + bases.T + bases.G + bases.C + bases.N;
    assert_eq!(total, 102);
    assert!(98 <= total && total <= 102);
}

#[test]
fn test_percentage_empty_column_stays_zero() {
    let mut bases = BaseCompColBases::new();
    bases.percentage();
    assert_eq!(bases, BaseCompColBases { A: 0, T: 0, G: 0, C: 0, N: 0 });
}

#[test]
fn test_base_comp_init_and_len() {
    let comp = BaseComp::init(3);
    assert_eq!(comp.len(), 3);
    assert_eq!(comp.lib[0].pos, 1);
    assert_eq!(comp.lib[2].pos, 3);
    assert_eq!(comp.lib[1].bases, BaseCompColBases { A: 0, T: 0, G: 0, C: 0, N: 0 });
}

// The sum of the counts at each position equals the number of reads
// that reached that position.
#[test]
fn test_position_sums_match_reads() {
    let mut comp = BaseComp::init(3);
    comp.extract("ATG");
    comp.extract("CCN");
    comp.extract("AA");
    let cases: [(usize, usize); 3] = [(0, 3), (1, 3), (2, 2)];
    for (pos, expected) in cases {
        let b = comp.lib[pos].bases;
        assert_eq!(b.A + b.T + b.G + b.C + b.N, expected);
    }
}

#[test]
fn test_jsonify_counts() {
    let mut comp = BaseComp::init(2);
    comp.extract("AT");
    let json = comp.jsonify();
    assert_eq!(
        json,
        "{\"lib\":[{\"pos\":1,\"bases\":{\"A\":1,\"T\":0,\"G\":0,\"C\":0,\"N\":0}},\
         {\"pos\":2,\"bases\":{\"A\":0,\"T\":1,\"G\":0,\"C\":0,\"N\":0}}],\"len\":2}"
    );
}

#[test]
fn test_jsonify_empty() {
    let mut comp = BaseComp::init(0);
    assert_eq!(comp.jsonify(), "{\"lib\":[],\"len\":0}");
}

#[test]
fn test_decimal_rendering() {
    assert_eq!(fastq2comp::decimal::usize_to_string(0), "0");
    assert_eq!(fastq2comp::decimal::usize_to_string(7), "7");
    assert_eq!(fastq2comp::decimal::usize_to_string(105), "105");
    assert_eq!(fastq2comp::decimal::usize_to_string(99000), "99000");
}
