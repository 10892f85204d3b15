use hadamard_sss::error::SchemeError;
use hadamard_sss::hadamard_matrix::HadamardMatrix;
use hadamard_sss::matrix::Matrix;

fn matrix(rows: &[&[i32]]) -> Matrix {
    let rows: Vec<Vec<i32>> = rows.iter().map(|r| r.to_vec()).collect();
    Matrix::from_rows(&rows).unwrap()
}

fn order_4() -> Matrix {
    matrix(&[&[1, 1, 1, 1], &[1, -1, 1, -1], &[1, 1, -1, -1], &[1, -1, -1, 1]])
}

fn order_8() -> Matrix {
    matrix(&[
        &[1, 1, 1, 1, 1, 1, 1, 1],
        &[1, -1, 1, -1, 1, -1, 1, -1],
        &[1, 1, -1, -1, 1, 1, -1, -1],
        &[1, -1, -1, 1, 1, -1, -1, 1],
        &[1, 1, 1, 1, -1, -1, -1, -1],
        &[1, -1, 1, -1, -1, 1, -1, 1],
        &[1, 1, -1, -1, -1, -1, 1, 1],
        &[1, -1, -1, 1, -1, 1, 1, -1],
    ])
}

#[test]
#[should_panic]
fn empty_mtx() {
    HadamardMatrix::from(&matrix(&[&[]])).expect("this is not hadamard matrix");
}

#[test]
fn false_mtx() {
    assert_eq!(HadamardMatrix::is_hadamard(&matrix(&[&[1, 2], &[3, 4]])), false);
    assert_eq!(HadamardMatrix::is_hadamard(&matrix(&[&[1, 0], &[0, 1]])), false);
    assert_eq!(HadamardMatrix::is_hadamard(&matrix(&[&[-1, -1], &[1, 1]])), false);
}

#[test]
fn true_mtx() {
    assert_eq!(HadamardMatrix::is_hadamard(&matrix(&[&[1, 1], &[1, -1]])), true);
    assert_eq!(HadamardMatrix::is_hadamard(&order_4()), true);
}

#[test]
fn test_normalize() {
    assert_eq!(
        HadamardMatrix::from(&matrix(&[&[-1, -1], &[-1, 1]]))
            .unwrap()
            .normalize()
            .matrix()
            .to_rows(),
        HadamardMatrix::from(&matrix(&[&[1, 1], &[1, -1]])).unwrap().matrix().to_rows()
    );
    assert_eq!(
        HadamardMatrix::from(&matrix(&[&[-1, 1], &[1, 1]]))
            .unwrap()
            .normalize()
            .matrix()
            .to_rows(),
        HadamardMatrix::from(&matrix(&[&[1, 1], &[1, -1]])).unwrap().matrix().to_rows()
    );
}

#[test]
fn test_incidence() {
    assert_eq!(
        HadamardMatrix::from(&matrix(&[&[1, 1], &[1, -1]])).unwrap().get_incidence().to_rows(),
        vec![vec![0]]
    );
    assert_eq!(
        HadamardMatrix::from(&order_4()).unwrap().get_incidence().to_rows(),
        vec![vec![0, 1, 0], vec![1, 0, 0], vec![0, 0, 1]]
    );
}

#[test]
fn empty_matrix_is_invalid() {
    let none: Vec<Vec<i32>> = Vec::new();
    let empty = Matrix::from_rows(&none).unwrap();
    assert!(!HadamardMatrix::is_hadamard(&empty));
    assert_eq!(HadamardMatrix::from(&empty).err(), Some(SchemeError::InvalidMatrix));
    assert_eq!(HadamardMatrix::from(&matrix(&[&[]])).err(), Some(SchemeError::InvalidMatrix));
}

#[test]
fn not_square_is_rejected() {
    let wide = matrix(&[&[1, 1, 1], &[1, -1, 1]]);
    assert!(!HadamardMatrix::is_hadamard(&wide));
    assert_eq!(HadamardMatrix::from(&wide).err(), Some(SchemeError::InvalidMatrix));
    let tall = matrix(&[&[1], &[1]]);
    assert!(!HadamardMatrix::is_hadamard(&tall));
}

#[test]
fn signed_but_not_orthogonal_is_rejected() {
    let candidates: Vec<Matrix> = vec![
        matrix(&[&[1, 1], &[1, 1]]),
        matrix(&[&[1, -1], &[-1, 1]]),
        matrix(&[&[1, 1, 1], &[1, -1, 1], &[1, 1, -1]]),
        matrix(&[&[1, 1, 1, 1], &[1, -1, 1, -1], &[1, 1, -1, -1], &[1, -1, -1, -1]]),
        matrix(&[&[1, 1, 1, 1], &[1, 1, 1, 1], &[1, 1, -1, -1], &[1, -1, -1, 1]]),
    ];
    for candidate in candidates.iter() {
        assert!(!HadamardMatrix::is_hadamard(candidate));
        assert_eq!(HadamardMatrix::from(candidate).err(), Some(SchemeError::InvalidMatrix));
    }
}

#[test]
fn entry_outside_the_signs_is_rejected() {
    assert!(!HadamardMatrix::is_hadamard(&matrix(&[&[0]])));
    assert!(!HadamardMatrix::is_hadamard(&matrix(&[&[2]])));
    assert!(!HadamardMatrix::is_hadamard(&matrix(&[&[1, 1], &[1, -3]])));
    assert!(!HadamardMatrix::is_hadamard(&matrix(&[&[i32::MAX, 1], &[1, i32::MIN]])));
}

#[test]
fn orders_one_and_two_are_hadamard() {
    assert!(HadamardMatrix::is_hadamard(&matrix(&[&[1]])));
    assert!(HadamardMatrix::is_hadamard(&matrix(&[&[-1]])));
    assert!(HadamardMatrix::is_hadamard(&matrix(&[&[1, 1], &[1, -1]])));
    let one = HadamardMatrix::from(&matrix(&[&[1]])).unwrap().get_incidence();
    assert_eq!(one.rows(), 0);
    assert_eq!(one.cols(), 0);
    assert_eq!(one.to_rows(), Vec::<Vec<i32>>::new());
    let two = HadamardMatrix::from(&matrix(&[&[1, 1], &[1, -1]])).unwrap().get_incidence();
    assert_eq!(two.rows(), 1);
    assert_eq!(two.cols(), 1);
}

#[test]
fn order_eight_is_hadamard() {
    assert!(HadamardMatrix::is_hadamard(&order_8()));
    let kept = HadamardMatrix::from(&order_8()).unwrap();
    assert_eq!(kept.matrix().to_rows(), order_8().to_rows());
}

#[test]
fn normalize_gives_the_expected_signs() {
    // Order 4 with row 2 and column 1 negated, and then the whole of row 0.
    let scrambled = matrix(&[&[-1, 1, -1, -1], &[1, 1, 1, -1], &[-1, 1, 1, 1], &[1, 1, -1, 1]]);
    let mut h = HadamardMatrix::from(&scrambled).unwrap();
    h.normalize();
    assert_eq!(
        h.matrix().to_rows(),
        vec![vec![1, 1, 1, 1], vec![1, -1, 1, -1], vec![1, 1, -1, -1], vec![1, -1, -1, 1]]
    );
}

#[test]
fn normalize_twice_is_normalize_once() {
    let inputs: Vec<Matrix> = vec![
        matrix(&[&[-1]]),
        matrix(&[&[-1, -1], &[-1, 1]]),
        matrix(&[&[-1, 1, -1, -1], &[1, 1, 1, -1], &[-1, 1, 1, 1], &[1, 1, -1, 1]]),
        order_4(),
        order_8(),
    ];
    for input in inputs.iter() {
        let mut h = HadamardMatrix::from(input).unwrap();
        h.normalize();
        let once = h.matrix().to_rows();
        for row in once.iter() {
            assert_eq!(row[0], 1);
        }
        for v in once[0].iter() {
            assert_eq!(*v, 1);
        }
        assert!(HadamardMatrix::is_hadamard(h.matrix()));
        h.normalize();
        assert_eq!(h.matrix().to_rows(), once);
    }
}

#[test]
fn normalize_leaves_a_normal_matrix_alone() {
    let mut h = HadamardMatrix::from(&order_8()).unwrap();
    h.normalize();
    assert_eq!(h.matrix().to_rows(), order_8().to_rows());
}

#[test]
fn incidence_is_the_same_each_time() {
    let mut h = HadamardMatrix::from(&order_8()).unwrap();
    h.normalize();
    let first = h.get_incidence().to_rows();
    let second = h.get_incidence().to_rows();
    assert_eq!(first, second);
    let mut again = HadamardMatrix::from(&order_8()).unwrap();
    again.normalize();
    assert_eq!(again.get_incidence().to_rows(), first);
}

#[test]
fn incidence_of_order_eight() {
    let mut h = HadamardMatrix::from(&order_8()).unwrap();
    let inc = h.normalize().get_incidence();
    assert_eq!(
        inc.to_rows(),
        vec![
            vec![0, 1, 0, 1, 0, 1, 0],
            vec![1, 0, 0, 1, 1, 0, 0],
            vec![0, 0, 1, 1, 0, 0, 1],
            vec![1, 1, 1, 0, 0, 0, 0],
            vec![0, 1, 0, 0, 1, 0, 1],
            vec![1, 0, 0, 0, 0, 1, 1],
            vec![0, 0, 1, 0, 1, 1, 0],
        ]
    );
}

#[test]
fn incidence_without_normalizing_maps_the_signs() {
    let h = HadamardMatrix::from(&matrix(&[&[-1, -1], &[-1, 1]])).unwrap();
    assert_eq!(h.get_incidence().to_rows(), vec![vec![1]]);
}

#[test]
fn a_matrix_that_is_not_symmetric_is_judged_by_its_rows() {
    // Rows orthogonal; the product with itself, untransposed, is not twice the identity.
    assert!(HadamardMatrix::is_hadamard(&matrix(&[&[1, 1], &[-1, 1]])));
    assert!(HadamardMatrix::is_hadamard(&matrix(&[
        &[1, 1, 1, 1],
        &[-1, 1, -1, 1],
        &[-1, -1, 1, 1],
        &[1, -1, -1, 1],
    ])));
    // Columns orthogonal to themselves only: the rows are equal.
    assert!(!HadamardMatrix::is_hadamard(&matrix(&[&[1, -1], &[1, -1]])));
}

#[test]
fn construction_copies_the_candidate() {
    let candidate = matrix(&[&[-1, -1], &[-1, 1]]);
    let mut h = HadamardMatrix::from(&candidate).unwrap();
    h.normalize();
    assert_eq!(candidate.to_rows(), vec![vec![-1, -1], vec![-1, 1]]);
    assert_eq!(h.matrix().to_rows(), vec![vec![1, 1], vec![1, -1]]);
}
