use fastq2comp::plot_comp::{calc_mean, calc_sd};
use fastq2comp::{BaseCompCol, BaseCompColBases};

fn col(pos: usize, a: usize, t: usize, g: usize, c: usize, n: usize) -> BaseCompCol {
    BaseCompCol { pos, bases: BaseCompColBases { A: a, T: t, G: g, C: c, N: n } }
}

#[test]
fn test_calc_mean() {
    assert_eq!(
        calc_mean(
            &vec![vec![col(1, 7, 8, 55, 27, 2)], vec![col(1, 7, 8, 53, 30, 2)]],
            0
        ),
        BaseCompColBases { A: 7, T: 8, G: 54, C: 28, N: 2 }
    )
}

#[test]
fn test_calc_sd() {
    assert_eq!(
        calc_sd(
            &vec![vec![col(1, 25, 0, 75, 0, 10)], vec![col(1, 75, 100, 100, 0, 10)]],
            // This is the mean of the above values
            BaseCompColBases { A: 50, T: 50, G: 87, C: 0, N: 10 },
            0
        ),
        BaseCompColBases { A: 35, T: 71, G: 18, C: 0, N: 0 }
    )
}

#[test]
fn test_calc_mean_single_library() {
    assert_eq!(
        calc_mean(&vec![vec![col(1, 10, 20, 30, 40, 0)]], 0),
        BaseCompColBases { A: 10, T: 20, G: 30, C: 40, N: 0 }
    )
}

#[test]
fn test_calc_sd_identical_libraries_is_zero() {
    let libs = vec![vec![col(1, 25, 25, 25, 25, 0)], vec![col(1, 25, 25, 25, 25, 0)]];
    assert_eq!(
        calc_sd(&libs, BaseCompColBases { A: 25, T: 25, G: 25, C: 25, N: 0 }, 0),
        BaseCompColBases { A: 0, T: 0, G: 0, C: 0, N: 0 }
    )
}
