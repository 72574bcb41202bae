use sbvc::codec::{decode, encode};
use sbvc::error::Error;
use sbvc::store::Sbvc;

fn sample() -> Sbvc {
    let mut s = Sbvc::new("dir/ñotes.txt".to_string(), b"one\n".to_vec(), -5);
    s.commit(&b"one\ntwo\n".to_vec(), 1_700_000_000);
    s.rename("second — draft".to_string()).unwrap();
    s.commit(&b"one\n2\n".to_vec(), 1_700_000_500);
    s.checkout(1, true, &b"one\n2\n".to_vec()).unwrap();
    s.commit(&b"zero\none\n".to_vec(), 1_700_000_900);
    s
}

fn le(x: u64, n: usize) -> Vec<u8> {
    x.to_le_bytes()[..n].to_vec()
}

#[test]
fn store_file_round_trip() {
    let s = sample();
    let bytes = encode(&s);
    let t = decode(&bytes).unwrap();
    assert_eq!(encode(&t), bytes);
    assert_eq!(t.current_id(), s.current_id());
    assert_eq!(t.next_id(), s.next_id());
    assert_eq!(t.file(), "dir/ñotes.txt");
    assert_eq!(t.versions().len(), 4);
    for (a, b) in s.versions().iter().zip(t.versions().iter()) {
        assert_eq!((a.id(), a.base(), a.date(), a.name()), (b.id(), b.base(), b.date(), b.name()));
    }
    for id in [1, 2, 3, 4] {
        assert_eq!(t.reconstruct(id).unwrap(), s.reconstruct(id).unwrap());
    }
    assert_eq!(t.versions()[0].date(), -5);
}

#[test]
fn store_file_bytes_of_a_fresh_store() {
    let s = Sbvc::new("f".to_string(), b"a".to_vec(), 0);
    let mut want = b"SBVC".to_vec();
    want.extend(le(1, 4));
    want.extend(le(2, 4));
    want.extend(le(1, 8));
    want.extend(b"a");
    want.extend(le(1, 8));
    want.extend(b"f");
    want.extend(le(1, 8));
    want.extend(le(1, 4));
    want.extend(le(1, 4));
    want.extend(le(0, 8));
    want.extend(le(15, 8));
    want.extend(b"Initial version");
    want.extend(le(0, 8));
    want.extend(le(0, 8));
    assert_eq!(encode(&s), want);
}

#[test]
fn store_file_with_a_bad_header() {
    let mut bytes = encode(&sample());
    bytes[0] = b'X';
    assert_eq!(decode(&bytes).unwrap_err(), Error::MalformedStore);
    assert_eq!(decode(&b"SBV".to_vec()).unwrap_err(), Error::MalformedStore);
}

#[test]
fn store_file_cut_short_or_too_long() {
    let bytes = encode(&sample());
    for n in [4, 10, 20, bytes.len() / 2, bytes.len() - 1] {
        assert_eq!(decode(&bytes[..n].to_vec()).unwrap_err(), Error::MalformedStore);
    }
    let mut longer = bytes.clone();
    longer.push(0);
    assert_eq!(decode(&longer).unwrap_err(), Error::MalformedStore);
}

#[test]
fn store_file_with_invalid_text() {
    let s = Sbvc::new("f".to_string(), Vec::new(), 0);
    let mut bytes = encode(&s);
    // The file name's only byte sits after magic, two ids and the empty seed.
    let at = 4 + 4 + 4 + 8 + 8;
    assert_eq!(bytes[at], b'f');
    bytes[at] = 0xff;
    assert_eq!(decode(&bytes).unwrap_err(), Error::MalformedStore);
}

#[test]
fn store_file_with_a_corrupt_difference() {
    let mut s = Sbvc::new("f".to_string(), b"abc".to_vec(), 0);
    s.commit(&b"a".to_vec(), 1);
    let mut bytes = encode(&s);
    // The last version's only edit is a deletion of "bc": start 1, length 2.
    // Its length is followed by the count of insertions (0).
    let n = bytes.len();
    assert_eq!(bytes[n - 16..n - 8].to_vec(), le(2, 8));
    bytes[n - 16] = 9;
    assert_eq!(decode(&bytes).unwrap_err(), Error::CorruptDifference);
}

#[test]
fn store_file_with_a_broken_tree() {
    let mut s = Sbvc::new("f".to_string(), b"abc".to_vec(), 0);
    s.commit(&b"a".to_vec(), 1);
    let mut bytes = encode(&s);
    // The current id sits right after the magic bytes.
    bytes[4] = 7;
    assert_eq!(decode(&bytes).unwrap_err(), Error::MalformedStore);
}
