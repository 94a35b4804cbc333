use fastq2comp::extract_comp::{
    lengths_consistent, run_json, run_tsv, FASTQRead, FASTQReader, ReadCheckResult, SampleArgs,
    SampleRng,
};

fn to_lines(text: &str) -> Vec<String> {
    text.lines().map(|l| l.to_string()).collect()
}

#[test]
fn test_check_colorspace() {
    let lines = to_lines("@\nAT1CGN\n+\n!!!!!!");
    let mut read = FASTQRead::new(6);
    let mut rec: usize = 0;
    read.read_fastq(&lines, &mut rec);

    assert!(read.check_colorspace("AT1CGN"))
}

#[test]
fn test_count_n() {
    assert_eq!(FASTQRead::count_n("NNANNA"), 4)
}

#[test]
fn test_get_average_quality() {
    assert_eq!(FASTQRead::get_average_quality("#{|}"), 68)
}

#[test]
fn test_check_read() {
    let lines = to_lines("@\nAAAAANNNNN\n+\n!!!!!!!!!!");
    let mut f = FASTQRead::new(5);
    let mut rec: usize = 0;
    f.read_fastq(&lines, &mut rec);

    // case where read is trimmed
    let args = SampleArgs {
        target_read_count: 1,
        min_phred_score: 0,
        n_content: None,
        trimmed_length: Some(5),
    };

    assert_eq!(f.check_read(&args), ReadCheckResult::Accept);

    // case where read is too short for trim length
    let args = SampleArgs {
        target_read_count: 1,
        min_phred_score: 0,
        n_content: None,
        trimmed_length: Some(15),
    };

    assert_eq!(f.check_read(&args), ReadCheckResult::Reject);

    // case where too many N's
    let args = SampleArgs {
        target_read_count: 1,
        min_phred_score: 0,
        n_content: Some(1),
        trimmed_length: None,
    };

    assert_eq!(f.check_read(&args), ReadCheckResult::Reject);

    // case where quality too low
    let args = SampleArgs {
        target_read_count: 1,
        min_phred_score: 50,
        n_content: Some(1),
        trimmed_length: None,
    };

    assert_eq!(f.check_read(&args), ReadCheckResult::Reject);
}

#[test]
fn lib_test_check_colorspace() {
    let lines = to_lines("@\nAT1CGN\n+\n!!!!!!");
    let mut read = FASTQRead::new(6);
    let mut rec: usize = 0;
    read.read_fastq(&lines, &mut rec);

    assert!(read.check_colorspace(&read.seq))
}

#[test]
fn lib_test_count_n() {
    let lines = to_lines("@\nNNANNA\n+\n!!!!!!");
    let mut read = FASTQRead::new(6);
    let mut rec: usize = 0;
    read.read_fastq(&lines, &mut rec);

    assert_eq!(FASTQRead::count_n(&read.seq), 4)
}

#[test]
fn lib_test_get_average_quality() {
    let lines: Vec<String> = vec![
        "@".to_string(),
        "NNANNA".to_string(),
        "+".to_string(),
        "!\"#{|}".to_string(),
    ];
    let mut read = FASTQRead::new(6);
    let mut rec: usize = 0;
    read.read_fastq(&lines, &mut rec);

    assert_eq!(FASTQRead::get_average_quality(&read.quals), 46)
}

#[test]
fn test_trim() {
    assert_eq!(FASTQRead::trim("ACGTN", Some(2)), Ok("AC"));
    assert_eq!(FASTQRead::trim("ACGTN", None), Ok("ACGTN"));
    assert_eq!(FASTQRead::trim("AC", Some(5)), Err(()));
}

#[test]
fn test_skipping() {
    // cases of:
    // read too short
    // too many N
    // too low quality
    // correct read
    let lines = to_lines("@\nACGT\n+\nIIII\n@\nACNNN\n+\nIIIII\n@\nACGTN\n+\n!!!!!\n@\nACGTN\n+\nIIIII\n");

    let mut freader = FASTQReader::new(
        SampleArgs {
            target_read_count: 2,
            min_phred_score: 1,
            n_content: Some(2),
            trimmed_length: Some(5),
        },
        lines,
    );

    assert_eq!(freader.next(), Some("ACGTN".to_string()));
}

#[test]
fn test_json_run() {
    let lines = to_lines("@\nAAA\n+\n~~~");
    let args = SampleArgs {
        target_read_count: 1u64,
        min_phred_score: 0,
        n_content: None,
        trimmed_length: Some(2),
    };
    let mut rng = SampleRng::new(7);

    let (result, seqs) = run_json(FASTQReader::new(args, lines), &mut rng);

    assert_eq!(
        result,
        "{\"lib\":[{\"pos\":1,\"bases\":{\"A\":100,\"T\":0,\"G\":0,\"C\":0,\"N\":0}},\
         {\"pos\":2,\"bases\":{\"A\":100,\"T\":0,\"G\":0,\"C\":0,\"N\":0}}],\"len\":2}"
    );
    assert_eq!(seqs, 1);
}

#[test]
fn test_tsv_run() {
    let lines = to_lines("@\nAAA\n+\n~~~");
    let args = SampleArgs {
        target_read_count: 1u64,
        min_phred_score: 0,
        n_content: None,
        trimmed_length: Some(2),
    };
    let mut rng = SampleRng::new(7);

    let (result, seqs) = run_tsv(FASTQReader::new(args, lines), &mut rng);

    assert_eq!(result, "100\t0\t0\t0\t0\t100\t0\t0\t0\t0");
    assert_eq!(seqs, 1);
}

// A full run over nine records: one fails the quality threshold, one
// has too many N symbols, the seven others are aggregated.
#[test]
fn test_run_nine_records() {
    let lines = to_lines(
        "@\nAACAA\n+\n*****\n@\nAAGGA\n+\n!!!!!\n@\nAACAA\n+\n*****\n\
         @\nTAGGA\n+\n*****\n@\nTACAA\n+\n*****\n@\nTAGGA\n+\n*****\n\
         @\nTACAA\n+\n*****\n@\nCCCCC\n+\n*****\n@\nNNNNN\n+\n*****",
    );
    let args = SampleArgs {
        target_read_count: 8,
        min_phred_score: 1,
        n_content: Some(1),
        trimmed_length: Some(4),
    };

    let mut rng = SampleRng::new(11);
    let (res, num) = fastq2comp::extract_comp::run_core(FASTQReader::new(args, lines), &mut rng);
    assert_eq!(num, 7);
    // Position one sees A twice, T four times and C once out of seven
    // reads: 2/7, 4/7 and 1/7 round to 29, 57 and 14.
    assert_eq!(
        res.lib[0].bases,
        fastq2comp::BaseCompColBases { A: 29, T: 57, G: 0, C: 14, N: 0 }
    );
}

// A digit in a read is colorspace data: the run halts cleanly before
// aggregating that read or any later one.
#[test]
fn test_colorspace_halts_run() {
    let lines = to_lines("@\nAT1CGN\n+\nIIIIII\n@\nACGTAC\n+\nIIIIII");
    let args = SampleArgs {
        target_read_count: 2,
        min_phred_score: 0,
        n_content: None,
        trimmed_length: Some(6),
    };

    let mut freader = FASTQReader::new(args, lines.clone());
    assert_eq!(freader.next(), None);

    let mut rng = SampleRng::new(1);
    let (result, seqs) = run_json(FASTQReader::new(args, lines), &mut rng);
    assert_eq!(result, "{\"lib\":[],\"len\":0}");
    assert_eq!(seqs, 0);
}

// A read whose average quality falls below the threshold is skipped;
// the reader advances to the next record.
#[test]
fn test_low_quality_skipped() {
    // '?' is Phred+33 score 30.
    let lines = to_lines("@\nACGT\n+\n????\n@\nTTTT\n+\nIIII");
    let args = SampleArgs {
        target_read_count: 5,
        min_phred_score: 50,
        n_content: None,
        trimmed_length: Some(4),
    };

    let mut freader = FASTQReader::new(args, lines);
    assert_eq!(freader.next(), None);
}

// A read with more N symbols than allowed is skipped.
#[test]
fn test_n_content_rejected() {
    let lines = to_lines("@\nANNT\n+\nIIII\n@\nACGT\n+\nIIII");
    let args = SampleArgs {
        target_read_count: 5,
        min_phred_score: 0,
        n_content: Some(1),
        trimmed_length: Some(4),
    };

    let mut freader = FASTQReader::new(args, lines);
    assert_eq!(freader.next(), Some("ACGT".to_string()));
    assert_eq!(freader.next(), None);
}

// The reservoir pool is exactly as large as the target; a stream
// shorter than the target comes back whole, in order, padded with
// empty-string sentinels.
#[test]
fn test_sample_short_stream_kept_whole() {
    let lines = to_lines("@\nAAAA\n+\nIIII\n@\nCCCC\n+\nIIII");
    let args = SampleArgs {
        target_read_count: 4,
        min_phred_score: 0,
        n_content: None,
        trimmed_length: Some(4),
    };

    let mut rng = SampleRng::new(99);
    let pool = FASTQReader::new(args, lines).sample_random(&mut rng);
    assert_eq!(pool, vec!["AAAA".to_string(), "CCCC".to_string(), String::new(), String::new()]);
}

// With a long stream the pool still holds exactly the target count,
// and every slot holds an accepted read.
#[test]
fn test_sample_pool_size_bounded() {
    let mut text = String::new();
    for i in 0usize..50 {
        if i % 2 == 0 {
            text.push_str("@\nAAAA\n+\nIIII\n");
        } else {
            text.push_str("@\nCCCC\n+\nIIII\n");
        }
    }
    let lines = to_lines(&text);
    let args = SampleArgs {
        target_read_count: 3,
        min_phred_score: 0,
        n_content: None,
        trimmed_length: Some(4),
    };

    let mut rng = SampleRng::new(5);
    let pool = FASTQReader::new(args, lines).sample_random(&mut rng);
    assert_eq!(pool.len(), 3);
    for s in pool.iter() {
        assert!(s == "AAAA" || s == "CCCC");
    }
}

// The random source is seedable: the same seed reproduces the same
// sample, and indexes stay below their bound.
#[test]
fn test_sample_rng_deterministic() {
    let mut a = SampleRng::new(42);
    let mut b = SampleRng::new(42);
    for _ in 0usize..20 {
        let bound: usize = 7;
        let ia = a.rand_index(bound);
        let ib = b.rand_index(bound);
        assert_eq!(ia, ib);
        assert!(ia < bound);
    }
}

// Reads beyond the fill phase can enter the pool: across seeds, the
// single-slot pool does not always keep the first accepted read.
#[test]
fn test_sample_replaces_later_reads() {
    let mut text = String::from("@\nAAAA\n+\nIIII\n");
    for _ in 0usize..10 {
        text.push_str("@\nCCCC\n+\nIIII\n");
    }
    let lines = to_lines(&text);
    let args = SampleArgs {
        target_read_count: 1,
        min_phred_score: 0,
        n_content: None,
        trimmed_length: Some(4),
    };

    let mut kept_first = false;
    let mut kept_later = false;
    for seed in 0u64..200 {
        let mut rng = SampleRng::new(seed);
        let pool = FASTQReader::new(args, lines.clone()).sample_random(&mut rng);
        if pool[0] == "AAAA" {
            kept_first = true;
        }
        if pool[0] == "CCCC" {
            kept_later = true;
        }
    }
    assert!(kept_first);
    assert!(kept_later);
}

// The record-length consistency rule: a changed length is fatal
// unless a trim no longer than the previous length absorbs it,
// checked for sequence and quality alike.
#[test]
fn test_lengths_consistent() {
    // unchanged lengths are always consistent
    assert!(lengths_consistent(5, 5, 5, 5, None));
    assert!(lengths_consistent(5, 5, 5, 5, Some(3)));
    // a change with no trim configured is fatal
    assert!(!lengths_consistent(4, 4, 5, 5, None));
    // a trim no longer than the previous length absorbs the change
    assert!(lengths_consistent(5, 5, 7, 6, Some(5)));
    assert!(lengths_consistent(5, 5, 7, 6, Some(3)));
    // a trim longer than the previous length does not
    assert!(!lengths_consistent(4, 4, 5, 5, Some(5)));
    // both lines are checked: a quality mismatch alone is fatal
    assert!(!lengths_consistent(5, 4, 5, 5, None));
}
