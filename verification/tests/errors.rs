use minilzo::decode::check_filled;
use minilzo::encode::accept;
use minilzo::Error;

#[test]
fn every_status_has_its_kind() {
    assert_eq!(Error::Error, Error::from_code(-1));
    assert_eq!(Error::OutOfMemory, Error::from_code(-2));
    assert_eq!(Error::NotCompressible, Error::from_code(-3));
    assert_eq!(Error::InputOverrun, Error::from_code(-4));
    assert_eq!(Error::OutputOverrun, Error::from_code(-5));
    assert_eq!(Error::LookbehindOverrun, Error::from_code(-6));
    assert_eq!(Error::EOFNotFound, Error::from_code(-7));
    assert_eq!(Error::InputNotConsumed, Error::from_code(-8));
    assert_eq!(Error::NotYetImplemented, Error::from_code(-9));
    assert_eq!(Error::InvalidArgument, Error::from_code(-10));
    assert_eq!(Error::InvalidAlignment, Error::from_code(-11));
    assert_eq!(Error::OutputNotConsumed, Error::from_code(-12));
    assert_eq!(Error::InternalError, Error::from_code(-99));
}

#[test]
fn unknown_status_is_the_generic_failure() {
    assert_eq!(Error::Error, Error::from_code(0));
    assert_eq!(Error::Error, Error::from_code(1));
    assert_eq!(Error::Error, Error::from_code(-13));
    assert_eq!(Error::Error, Error::from_code(-98));
    assert_eq!(Error::Error, Error::from_code(-100));
    assert_eq!(Error::Error, Error::from_code(i32::MIN));
    assert_eq!(Error::Error, Error::from_code(i32::MAX));
}

#[test]
fn status_zero_is_success() {
    assert_eq!(Ok(()), Error::from_status(0));
    assert_eq!(Err(Error::OutputOverrun), Error::from_status(-5));
    assert_eq!(Err(Error::Error), Error::from_status(7));
}

#[test]
fn only_a_shorter_stream_is_accepted() {
    assert_eq!(Ok(()), accept(6, 7));
    assert_eq!(Err(Error::NotCompressible), accept(7, 7));
    assert_eq!(Err(Error::NotCompressible), accept(8, 7));
    assert_eq!(Err(Error::NotCompressible), accept(0, 0));
}

#[test]
fn output_must_have_the_declared_length() {
    assert_eq!(Ok(()), check_filled(4, 4));
    assert_eq!(Err(Error::OutputNotConsumed), check_filled(3, 4));
    assert_eq!(Err(Error::OutputOverrun), check_filled(5, 4));
}
