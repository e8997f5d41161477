use quota_arc::params::Params;
use quota_arc::parse::{parse_fields, ParseError};
use quota_arc::types::{Operation, Page, Tenant};

#[test]
fn fields_split_on_blanks() {
    let line = b"  12 34\t5\r".as_slice();
    assert_eq!(parse_fields(line, 0, line.len()), Some(vec![12, 34, 5]));
    assert_eq!(parse_fields(line, 5, 7), Some(vec![34]));
    assert_eq!(parse_fields(line, 6, 7), Some(vec![4]));
}

#[test]
fn fields_reject_other_bytes_and_overflow() {
    let line = b"1 x 2".as_slice();
    assert_eq!(parse_fields(line, 0, line.len()), None);
    let big = b"18446744073709551616".as_slice();
    assert_eq!(parse_fields(big, 0, big.len()), None);
    let max = b"18446744073709551615".as_slice();
    assert_eq!(parse_fields(max, 0, max.len()), Some(vec![usize::MAX]));
}

#[test]
fn config_and_accesses() {
    let input = b"2 4 9\n1 2\n10 20\n1 2 3 0 1 4 7\n1 5\n2 20\n".as_slice();
    let mut pos: usize = 0;
    let params = Params::from_lines(input, &mut pos).unwrap();
    assert_eq!(params.num_tenants_n, 2);
    assert_eq!(params.buffer_size_q, 4);
    assert_eq!(params.priorities_lt, vec![1, 2]);
    assert_eq!(params.db_size_dt, vec![10, 20]);
    assert_eq!(params.buffer_sizes_qt, vec![(1, 2, 3), (0, 1, 4)]);
    let first = Operation::from_lines(input, &mut pos);
    assert_eq!(
        first,
        Ok(Some(Operation {
            tenant: Tenant(1),
            page: Page(5)
        }))
    );
    let second = Operation::from_lines(input, &mut pos);
    assert_eq!(
        second,
        Ok(Some(Operation {
            tenant: Tenant(2),
            page: Page(20)
        }))
    );
    assert_eq!(Operation::from_lines(input, &mut pos), Ok(None));
    assert_eq!(pos, input.len());
}

#[test]
fn config_errors() {
    let mut pos: usize = 0;
    assert_eq!(
        Params::from_lines(b"2 4\n1 1\n".as_slice(), &mut pos).err(),
        Some(ParseError::MissingLine)
    );
    let mut pos: usize = 0;
    assert_eq!(
        Params::from_lines(b"2\n1 1\n5 5\n0 0 1 0 0 1\n".as_slice(), &mut pos).err(),
        Some(ParseError::BadLine)
    );
    let mut pos: usize = 0;
    assert_eq!(
        Params::from_lines(b"1 4\n256\n5\n0 0 1\n".as_slice(), &mut pos).err(),
        Some(ParseError::BadLine)
    );
}

#[test]
fn access_errors() {
    let input = b"7\n300 1\n1 -2\n".as_slice();
    let mut pos: usize = 0;
    assert_eq!(Operation::from_lines(input, &mut pos), Err(ParseError::BadLine));
    let mut pos: usize = 2;
    assert_eq!(Operation::from_lines(input, &mut pos), Err(ParseError::BadLine));
    let mut pos: usize = 8;
    assert_eq!(Operation::from_lines(input, &mut pos), Err(ParseError::BadLine));
}

#[test]
fn access_ignores_what_follows_the_page() {
    let input = b"1 2 x\n3 4 99999999999999999999999\n+5\t+6\n".as_slice();
    let mut pos: usize = 0;
    let expect = |t: u8, p: u32| Ok(Some(Operation { tenant: Tenant(t), page: Page(p) }));
    assert_eq!(Operation::from_lines(input, &mut pos), expect(1, 2));
    assert_eq!(Operation::from_lines(input, &mut pos), expect(3, 4));
    assert_eq!(Operation::from_lines(input, &mut pos), expect(5, 6));
    assert_eq!(Operation::from_lines(input, &mut pos), Ok(None));
}

#[test]
fn access_rejects_missing_or_bad_leading_tokens() {
    for line in [b"\n".as_slice(), b"1\n", b"+ 2\n", b"1 x\n", b"256 1\n", b"1 4294967296\n", b"1 +\n"] {
        let mut pos: usize = 0;
        assert_eq!(Operation::from_lines(line, &mut pos), Err(ParseError::BadLine));
    }
    let mut pos: usize = 0;
    assert_eq!(
        Operation::from_lines(b"1 4294967295\n".as_slice(), &mut pos),
        Ok(Some(Operation { tenant: Tenant(1), page: Page(u32::MAX) }))
    );
}

#[test]
fn fields_accept_a_leading_plus() {
    let line = b"+12 3 +0".as_slice();
    assert_eq!(parse_fields(line, 0, line.len()), Some(vec![12, 3, 0]));
    for bad in [b"+".as_slice(), b"1+2", b"+ 1", b"++1", b"1 +"] {
        assert_eq!(parse_fields(bad, 0, bad.len()), None);
    }
    let mut pos: usize = 0;
    let params = Params::from_lines(b"+1 +4\n+1\n5\n0 +1 2\n".as_slice(), &mut pos).unwrap();
    assert_eq!((params.num_tenants_n, params.buffer_size_q), (1, 4));
    assert_eq!(params.buffer_sizes_qt, vec![(0, 1, 2)]);
}
