use abstract_interpreter::abstract_domains::ext_int::Int;

#[test]
fn int_sub() {
    assert_eq!(Int::Num(0) - Int::NegInf, Int::PosInf);
    assert_eq!(Int::Num(0) - Int::PosInf, Int::NegInf);
}

#[test]
fn int_div() {
    assert_eq!(Int::NegInf / Int::Num(0), Int::NegInf);
    assert_eq!(Int::Num(10) / Int::Num(0), Int::PosInf);
    assert_eq!(Int::PosInf / Int::NegInf, Int::Num(0))
}
