use thinp_pack::coordinator::first_error;
use thinp_pack::pack::PackError;

#[test]
fn no_worker_means_no_error() {
    assert_eq!(first_error(Vec::<Result<(), u8>>::new()), Ok(()));
}

#[test]
fn all_well_is_well() {
    assert_eq!(first_error::<u8>(vec![Ok(()), Ok(()), Ok(())]), Ok(()));
}

#[test]
fn first_error_is_reported() {
    assert_eq!(first_error(vec![Ok(()), Err(2), Ok(()), Err(4)]), Err(2));
    assert_eq!(first_error(vec![Err(1), Err(2)]), Err(1));
    assert_eq!(first_error(vec![Ok(()), Ok(()), Err(9)]), Err(9));
    assert_eq!(
        first_error(vec![Ok(()), Err(PackError::Compress)]),
        Err(PackError::Compress)
    );
}

#[test]
fn errors_need_not_be_copied() {
    let outcomes: Vec<Result<(), String>> =
        vec![Ok(()), Err(String::from("late")), Err(String::from("later"))];
    assert_eq!(first_error(outcomes), Err(String::from("late")));
}
