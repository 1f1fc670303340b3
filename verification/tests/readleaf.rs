use betree::readleaf::ReadLeaf;

use rand::Rng;
use rand::SeedableRng;
use rand::StdRng;

use std::mem::size_of;

#[test]
fn roundtrip_empty_readleaf() {
    let empty: &[u8] = &[];
    let input = ReadLeaf {
        data: empty,
        keys: vec![],
        vals: vec![],
    };
    let mut wtr = vec![];
    let result = input.serialize(&mut wtr);
    assert!(result.is_ok());
    assert_eq!(size_of::<u64>(), wtr.len());
    let output = ReadLeaf::deserialize(&wtr);
    assert!(output.is_ok());
    let output = output.unwrap();
    assert!(output.data != empty);
    assert_eq!(0, output.keys.len());
    assert_eq!(0, output.vals.len());
}

#[test]
fn roundtrip_nonempty_readleaf() {
    let empty: &[u8] = &[];
    let input = ReadLeaf {
        data: empty,
        keys: vec![b"hello"],
        vals: vec![b"world"],
    };
    let mut wtr = vec![];
    let result = input.serialize(&mut wtr);
    assert!(result.is_ok());
    assert_eq!(
        3 * size_of::<u64>() + "hello".len() + "world".len(),
        wtr.len()
    );
    let output = ReadLeaf::deserialize(&wtr);
    assert!(output.is_ok());
    let output = output.unwrap();
    assert_eq!(b"hello", output.keys[0]);
    assert_eq!(b"world", output.vals[0]);
}

fn create_bytes(size: usize, data: &mut Vec<u8>, rng: &mut StdRng) -> Vec<usize> {
    let mut lengths = vec![0 as usize; size];
    for i in 0..size {
        let len = rng.gen::<usize>() % 100;
        let key = rng.gen_ascii_chars().take(len).collect::<String>();
        data.extend(key.into_bytes());
        lengths[i] = len;
    }
    lengths
}

fn create_arrays<'a>(offset: usize, data: &'a [u8], lengths: &Vec<usize>) -> (Vec<&'a [u8]>, usize) {
    let mut offset = offset;
    let mut out = vec![];
    for len in lengths {
        out.push(&data[offset..offset + len]);
        offset += len;
    }
    (out, offset)
}

#[test]
fn roundtrip_random_readleaf() {
    let seed: &[_] = &[1, 2, 3, 4];
    let mut rng: StdRng = SeedableRng::from_seed(seed);
    let mut data = vec![];
    let keylen = create_bytes(100, &mut data, &mut rng);
    let vallen = create_bytes(100, &mut data, &mut rng);
    let (keys, offset) = create_arrays(0, &data, &keylen);
    let (vals, _) = create_arrays(offset, &data, &vallen);
    let input = ReadLeaf {
        data: &data,
        keys: keys,
        vals: vals,
    };
    let mut wtr = vec![];
    let result = input.serialize(&mut wtr);
    assert!(result.is_ok());
    let output = ReadLeaf::deserialize(&wtr);
    assert!(output.is_ok());
    let output = output.unwrap();
    for i in 0..100 {
        assert_eq!(input.keys[i], output.keys[i]);
        assert_eq!(input.vals[i], output.vals[i]);
    }
}

#[test]
fn readleaf_serialize_counts_bytes() {
    let input = ReadLeaf {
        data: &[],
        keys: vec![b"ab", b"c"],
        vals: vec![b"", b"xyz"],
    };
    let mut wtr = vec![9u8];
    assert_eq!(input.serialize(&mut wtr), Ok(8 + 4 * 8 + 3 + 3));
    assert_eq!(wtr.len(), 1 + 8 + 4 * 8 + 3 + 3);
    assert_eq!(wtr[0], 9);
    let output = ReadLeaf::deserialize(&wtr[1..]).unwrap();
    assert_eq!(output.keys, vec![&b"ab"[..], b"c"]);
    assert_eq!(output.vals, vec![&b""[..], b"xyz"]);
    assert!(ReadLeaf::deserialize(&wtr[1..wtr.len() - 1]).is_err());
}
