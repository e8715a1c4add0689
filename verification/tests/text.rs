//! Plans and numbers as text.

use sngram::bytes::{ByteSet256, EdgeBytes, SaturatingByteCounts256};
use sngram::query::plan::{GramKey, GramNeedle, PlanExpr, QueryPlan, ScanNeed};
use sngram::text::rust_u64;

#[test]
fn numbers_group_by_three_digits() {
    assert_eq!(rust_u64(0), "0");
    assert_eq!(rust_u64(999), "999");
    assert_eq!(rust_u64(1000), "1_000");
    assert_eq!(rust_u64(12_034_005), "12_034_005");
    assert_eq!(rust_u64(u64::MAX), "18_446_744_073_709_551_615");
}

#[test]
fn conditions_render_with_their_values() {
    let mut set = ByteSet256::default();
    set.insert(1);
    set.insert(64);
    let mut counts = SaturatingByteCounts256::default();
    counts.observe(b'a');
    counts.observe(b'a');
    counts.observe(10);
    let cases = [
        (ScanNeed::MinByteLen(12), "MinByteLen(12)"),
        (ScanNeed::MinLongestLineLen(3), "MinLongestLineLen(3)"),
        (
            ScanNeed::ContainsAnyByte(set),
            "ContainsAnyByte(ByteSet256 { words: [2, 1, 0, 0] })",
        ),
        (
            ScanNeed::MinByteCounts(Box::new(counts)),
            "MinByteCounts(0x0a:1,0x61:2)",
        ),
        (
            ScanNeed::StartsWith(EdgeBytes::from_slice(b"ab")),
            "StartsWith(EdgeBytes { len: 2, bytes: [97, 98, 0, 0, 0, 0, 0, 0, 0, 0, 0, 0, 0, 0, 0, 0] })",
        ),
    ];
    for (need, text) in cases {
        assert_eq!(need.render(), text);
    }
    assert_eq!(
        format!("ContainsAnyByte({set:?})"),
        ScanNeed::ContainsAnyByte(set).render()
    );
    let edge = EdgeBytes::from_slice(b"xyz");
    assert_eq!(
        format!("EndsWith({edge:?})"),
        ScanNeed::EndsWith(edge).render()
    );
}

#[test]
fn expressions_render_as_conjunctions_and_alternatives() {
    assert_eq!(QueryPlan::new(PlanExpr::All).render(), "+");
    assert_eq!(PlanExpr::Nothing.render(), "-");
    let word = GramNeedle::AtWordEdge {
        keys: vec![GramKey(7)],
        starts: true,
        ends: false,
        whole: false,
    };
    let needle = GramNeedle::AnyKey(vec![GramKey(1), GramKey(2)]);
    let line = GramNeedle::AtLineEdge {
        keys: vec![GramKey(3)],
        starts: false,
        ends: true,
    };
    assert_eq!(
        PlanExpr::AllOf {
            grams: vec![word.clone(), line.clone()],
            needs: vec![ScanNeed::MinByteLen(4)],
            children: vec![PlanExpr::All],
        }
        .render(),
        format!("{word:?} {line:?} MinByteLen(4) +")
    );
    let any = PlanExpr::AnyOf {
        grams: vec![needle.clone(), GramNeedle::Key(GramKey(9))],
        needs: vec![],
        children: vec![PlanExpr::Nothing, PlanExpr::All],
    };
    assert_eq!(
        any.render(),
        format!("{needle:?}|Key(GramKey(9))|(-)|(+)")
    );
    assert_eq!(
        PlanExpr::AnyOf {
            grams: vec![],
            needs: vec![],
            children: vec![any],
        }
        .render(),
        format!("({needle:?}|Key(GramKey(9))|(-)|(+))")
    );
}
