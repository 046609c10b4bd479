use illuminator::bvhbuild::MortonPrim;
use illuminator::morton::encode_morton3;
use illuminator::morton::inplace_map;
use illuminator::morton::inplace_map_rev;
use illuminator::morton::radix_sort;

#[test]
fn test_inplace_map() {
    let mut map: Vec<usize> = vec![2, 0, 1, 3];
    let mut chars = vec!["A", "B", "C", "D"];
    inplace_map_rev(&mut map, &mut chars);
    assert_eq!(chars, vec!["B", "C", "A", "D"]);

    let mut map: Vec<usize> = vec![2, 0, 1, 3];
    let mut chars = vec!["A", "B", "C", "D"];
    inplace_map(&mut map, &mut chars);
    assert_eq!(chars, vec!["C", "A", "B", "D"]);
}

#[test]
fn test_perm_round_trip() {
    // applying a permutation one way and then the other restores the array
    let mut map: Vec<usize> = vec![3, 1, 4, 0, 2];
    let mut vals: Vec<u64> = vec![10, 20, 30, 40, 50];
    inplace_map(&mut map, &mut vals);
    let mut map: Vec<usize> = vec![3, 1, 4, 0, 2];
    inplace_map_rev(&mut map, &mut vals);
    assert_eq!(vals, vec![10, 20, 30, 40, 50]);

    let mut map: Vec<usize> = vec![3, 1, 4, 0, 2];
    let mut vals: Vec<u64> = vec![10, 20, 30, 40, 50];
    inplace_map_rev(&mut map, &mut vals);
    let mut map: Vec<usize> = vec![3, 1, 4, 0, 2];
    inplace_map(&mut map, &mut vals);
    assert_eq!(vals, vec![10, 20, 30, 40, 50]);
}

#[test]
fn test_encode_morton() {
    let m = encode_morton3(1, 1, 1);
    assert_eq!(m, 7);

    let m = encode_morton3(1, 2, 3);
    assert_eq!(m, 0b110101);

    let m = encode_morton3(1023, 1023, 1023);
    assert_eq!(m, 0b111111111111111111111111111111);
}

#[test]
fn test_radix_sort() {
    let nm: usize = 256;
    let mut ms: Vec<MortonPrim> = Vec::with_capacity(nm);
    for i in 0..nm {
        let x = ((i * 1024) / nm) as u32;
        let m = MortonPrim { code: encode_morton3(x, x, x), prim_index: i };
        ms.push(m);
    }

    for i in (0..nm).step_by(2) {
        ms.swap(i, i + 1);
    }
    ms.reverse();
    radix_sort(&mut ms);
    for (i, m) in ms.iter().enumerate() {
        assert_eq!(m.prim_index, i);
    }
    // strictly ascending keys after the sort-and-permute
    for i in 1..nm {
        assert!(ms[i - 1].code < ms[i].code);
    }
}
