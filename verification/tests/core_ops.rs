use illuminator::tensor::Tensor;
use illuminator::util::parse_resolution;

#[test]
fn ops_test_add() {
    let fv = Tensor::<i32, 3>::vec([1; 3]);
    let fv2 = fv.add(fv);
    assert_eq!(fv2.raw, [2; 3]);

    let fv3 = fv.add_scalar(1);
    assert_eq!(fv3.raw, [2; 3]);

    let iv = Tensor::<usize, 3>::vec([1; 3]);
    let iv2 = iv.add(iv);
    assert_eq!(iv2.raw, [2; 3]);

    let iv3 = iv.add_scalar(1);
    assert_eq!(iv3.raw, [2; 3]);
}

#[test]
fn ops_test_sub() {
    let fv = Tensor::<i32, 3>::vec([1; 3]);
    let fv2 = fv.sub(fv);
    assert_eq!(fv2.raw, [0; 3]);

    let fv3 = fv.sub_scalar(1);
    assert_eq!(fv3.raw, [0; 3]);

    let iv = Tensor::<usize, 3>::vec([1; 3]);
    let iv2 = iv.sub(iv);
    assert_eq!(iv2.raw, [0; 3]);

    let iv3 = iv.sub_scalar(1);
    assert_eq!(iv3.raw, [0; 3]);
}

#[test]
fn ops_test_mul() {
    let fv = Tensor::<i32, 3>::vec([1; 3]);
    let fv2 = fv.mul(fv);
    assert_eq!(fv2.raw, [1; 3]);

    let fv3 = fv.mul_scalar(1);
    assert_eq!(fv3.raw, [1; 3]);

    let iv = Tensor::<usize, 3>::vec([1; 3]);
    let iv2 = iv.mul(iv);
    assert_eq!(iv2.raw, [1; 3]);

    let iv3 = iv.mul_scalar(1);
    assert_eq!(iv3.raw, [1; 3]);
}

#[test]
fn ops_test_div() {
    let fv = Tensor::<i32, 3>::vec([2; 3]);
    let fv2 = fv.div(fv);
    assert_eq!(fv2.raw, [1; 3]);

    let fv3 = fv.div_scalar(2);
    assert_eq!(fv3.raw, [1; 3]);

    let iv = Tensor::<usize, 3>::vec([2; 3]);
    let iv2 = iv.div(iv);
    assert_eq!(iv2.raw, [1; 3]);

    let iv3 = iv.div_scalar(2);
    assert_eq!(iv3.raw, [1; 3]);
}

#[test]
fn test_index() {
    let t = Tensor::<i32, 24>::new(&[1, 2, 3, 4], [1; 24]);

    assert_eq!(t.at(&[0, 0, 0, 0]), 1);

    assert_eq!(t.at(&[0, 0, 0, 3]), 1);

    let t = Tensor::<usize, 9>::new(&[3, 3], [1, 2, 3, 4, 5, 6, 7, 8, 9]);
    for (i, j) in std::iter::zip(0..2usize, 0..2usize) {
        assert_eq!(t.at(&[i, j]), i * 3 + j + 1);
    }
}

#[test]
fn test_shape() {
    let t = Tensor::<i32, 24>::new(&[1, 2, 3, 4], [1; 24]);

    for i in 0..4 {
        assert_eq!(t.shape.get(i), i + 1);
    }

    let t = Tensor::<usize, 4>::new(&[2, 1, 2], [1, 2, 3, 4]);
    assert_eq!(t.shape.get(0), 2);
    assert_eq!(t.shape.get(1), 1);
    assert_eq!(t.shape.get(2), 2);

    let t = Tensor::<usize, 9>::new(&[3, 3], [1, 2, 3, 4, 5, 6, 7, 8, 9]);
    assert_eq!(t.shape.get(0), 3);
    assert_eq!(t.shape.get(1), 3);
}

#[test]
fn test_parse_resolution() {
    assert_eq!(parse_resolution("800x600"), Some((800, 600)));
    assert_eq!(parse_resolution("1x1"), Some((1, 1)));
    assert_eq!(parse_resolution("800"), None);
    assert_eq!(parse_resolution("x600"), None);
    assert_eq!(parse_resolution("800x"), None);
    assert_eq!(parse_resolution("800x600x2"), None);
    assert_eq!(parse_resolution("80a0x600"), None);
    assert_eq!(parse_resolution("99999999999999999999999999999999999999x2"), None);
}
