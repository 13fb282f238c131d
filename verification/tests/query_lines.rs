use runaway_datastructures::query::Query;
use runaway_datastructures::query::QueryResult;

#[test]
fn access() {
    let access1 = "access 123   ";
    let access2 = "access 1535345435345\n";
    assert_eq!(Query::try_from(access1), Ok(Query::Access(123)));
    assert_eq!(Query::try_from(access2), Ok(Query::Access(1535345435345)));
}

#[test]
fn rank() {
    let rank1 = "rank 1 1231\n";
    let rank2 = "rank 0 8898560945  ";
    assert_eq!(Query::try_from(rank1), Ok(Query::Rank(true, 1231)));
    assert_eq!(Query::try_from(rank2), Ok(Query::Rank(false, 8898560945)));
}

#[test]
fn select() {
    let select1 = "select 0 5645456984598654\n";
    let select2 = "select 1 1\n";
    assert_eq!(
        Query::try_from(select1),
        Ok(Query::Select(false, 5645456984598654usize))
    );
    assert_eq!(Query::try_from(select2), Ok(Query::Select(true, 1)));
}

#[test]
fn bad() {
    let bad1 = "   \n \n ";
    let bad2 = "";
    let bad3 = "select 123";
    let bad4 = "rank 1 a\n";
    assert_eq!(Query::try_from(bad1), Err(()));
    assert_eq!(Query::try_from(bad2), Err(()));
    assert_eq!(Query::try_from(bad3), Err(()));
    assert_eq!(Query::try_from(bad4), Err(()));
}

#[test]
fn bad_bit_value() {
    assert_eq!(Query::try_from("rank 2 5\n"), Err(()));
    assert_eq!(Query::try_from("select 9 1"), Err(()));
    assert_eq!(Query::try_from("rank 11 5"), Err(()));
}

#[test]
fn number_limits() {
    assert_eq!(
        Query::try_from("access 18446744073709551615"),
        Ok(Query::Access(usize::MAX))
    );
    assert_eq!(Query::try_from("access 18446744073709551616"), Err(()));
    assert_eq!(Query::try_from("access 99999999999999999999999"), Err(()));
    assert_eq!(Query::try_from("access "), Err(()));
    assert_eq!(Query::try_from("access    \n"), Err(()));
}

#[test]
fn result_lines() {
    assert_eq!(QueryResult::Access(true).as_line(), "1\n");
    assert_eq!(QueryResult::Access(false).as_line(), "0\n");
    assert_eq!(QueryResult::Rank(0).as_line(), "0\n");
    assert_eq!(QueryResult::Rank(7).as_line(), "7\n");
    assert_eq!(QueryResult::Rank(12345).as_line(), "12345\n");
    assert_eq!(QueryResult::Rank(1000000).as_line(), "1000000\n");
    assert_eq!(QueryResult::Select(Some(98)).as_line(), "98\n");
    assert_eq!(QueryResult::Select(Some(0)).as_line(), "0\n");
    assert_eq!(QueryResult::Select(None).as_line(), "None\n");
    assert_eq!(
        QueryResult::Rank(usize::MAX).as_line(),
        "18446744073709551615\n"
    );
}
