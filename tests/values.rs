use eosio::asset::{Asset, ExtendedAsset, Symbol};
use eosio::time::Time;

fn eos(amount: i64) -> Asset {
    let code = (b'E' as u64) | (b'O' as u64) << 8 | (b'S' as u64) << 16;
    Asset { amount, symbol: Symbol(4 | code << 8) }
}

#[test]
fn time_units() {
    let t = Time::from_days(2);
    assert_eq!(t.microseconds(), 172_800_000_000);
    assert_eq!(t.days(), 2);
    assert_eq!(t.hours(), 48);
    assert_eq!(t.minutes(), 2880);
    assert_eq!(t.seconds(), 172_800);
    assert_eq!(t.milliseconds(), 172_800_000);
    assert_eq!(Time::from_hours(1).microseconds(), 3_600_000_000);
    assert_eq!(Time::from_minutes(1).microseconds(), 60_000_000);
    assert_eq!(Time::from_seconds(3).microseconds(), 3_000_000);
    assert_eq!(Time::from_milliseconds(5).microseconds(), 5_000);
    assert_eq!(Time::from_microseconds(9).microseconds(), 9);
    assert_eq!(Time::from_microseconds(1_999_999).seconds(), 1);
}

#[test]
fn time_zero_min_max() {
    assert!(Time::zero().is_zero());
    assert!(!Time::from_microseconds(1).is_zero());
    let a = Time::from_seconds(1);
    let b = Time::from_seconds(2);
    assert_eq!(a.max(b), b);
    assert_eq!(a.min(b), a);
    assert_eq!(b.max(a), b);
    assert_eq!(Time::from(7u64), Time::from_microseconds(7));
    assert_eq!(u64::from(Time::from_microseconds(7)), 7);
}

#[test]
fn symbol_validity() {
    assert!(eos(0).is_valid());
    assert_eq!(eos(0).symbol.precision(), 4);
    assert_eq!(eos(0).symbol.name_bytes(), b"EOS".to_vec());
    assert!(!Symbol(4).is_valid());
    assert!(!Symbol(4 | (b'e' as u64) << 8).is_valid());
    let gap = (b'A' as u64) | (b'B' as u64) << 16;
    assert!(!Symbol(gap << 8).is_valid());
}

#[test]
fn asset_arithmetic() {
    assert_eq!(eos(5).add(eos(7)), eos(12));
    assert_eq!(eos(5).sub(eos(7)), eos(-2));
    assert_eq!(eos(5).mul(eos(-3)), eos(-15));
    assert_eq!(eos(-7).div(eos(2)), eos(-3));
    assert_eq!(eos(7).div(eos(-2)), eos(-3));
    assert_eq!(eos(-7).rem(eos(2)), eos(-1));
    assert_eq!(eos(7).rem(eos(-2)), eos(1));
    assert_eq!(eos(i64::MIN).div(eos(1)), eos(i64::MIN));
    assert_eq!(eos(i64::MIN).div(eos(2)), eos(i64::MIN / 2));
    let mut a = eos(10);
    a.add_assign(eos(1));
    a.sub_assign(eos(3));
    a.mul_assign(eos(2));
    a.div_assign(eos(3));
    assert_eq!(a, eos(5));
    a.rem_assign(eos(3));
    assert_eq!(a, eos(2));
}

#[test]
fn extended_asset_holds_contract() {
    let e = ExtendedAsset { quantity: eos(1), contract: 99 };
    assert_eq!(e.quantity.amount, 1);
    assert_eq!(e.contract, 99);
}

#[test]
fn time_integer_conversions() {
    let t = Time::from(-1i64);
    assert_eq!(t.microseconds(), u64::MAX);
    assert_eq!(i64::from(Time::from_microseconds(5)), 5);
    assert_eq!(u32::from(Time::from_seconds(12)), 12);
}
