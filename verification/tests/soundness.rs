//! Plans hold on documents that match.

use std::collections::HashSet;

use sngram::bytes::{ByteSet256, EdgeBytes, SaturatingByteCounts256};
use sngram::extract::stream::scan_with;
use sngram::extract::{scan, Emission, ScanOptions};
use sngram::plan;
use sngram::query::plan::tune::DfSnapshot;
use sngram::query::plan::{GramKey, GramNeedle, PlanExpr, ScanFlags, ScanSummary};
use sngram::query::query;
use sngram::table::WeightTable;

fn tables() -> Vec<WeightTable> {
    vec![
        WeightTable::from_weight_fn(|c1, c2| crc32fast::hash(&[c1, c2])),
        WeightTable::from_weight_fn(|_, _| 7),
        WeightTable::from_weight_fn(|c1, c2| u32::from(c1) * 3 + u32::from(c2)),
        WeightTable::from_weight_fn(|c1, c2| crc32fast::hash(&[c2, c1, 1]) % 5),
    ]
}

fn summary_of(doc: &[u8]) -> ScanSummary {
    let mut counts = SaturatingByteCounts256::default();
    let mut starts = ByteSet256::default();
    let mut ends = ByteSet256::default();
    for (i, &b) in doc.iter().enumerate() {
        counts.observe(b);
        if b != b'\n' && (i == 0 || doc[i - 1] == b'\n') {
            starts.insert(b);
        }
        if b != b'\n' && (i + 1 == doc.len() || doc[i + 1] == b'\n') {
            ends.insert(b);
        }
    }
    let lines: Vec<&[u8]> = doc.split(|&b| b == b'\n').collect();
    ScanSummary {
        byte_len: doc.len() as u64,
        line_count: lines.len() as u64,
        longest_line_len: lines.iter().map(|l| l.len()).max().unwrap_or(0) as u32,
        flags: ScanFlags::default(),
        byte_counts: counts,
        line_start_bytes: starts,
        line_end_bytes: ends,
        prefix: EdgeBytes::from_slice(doc),
        suffix: EdgeBytes::from_slice(&doc[doc.len().saturating_sub(16)..]),
    }
}

struct Indexed<'a> {
    doc: &'a [u8],
    spans: Vec<Emission>,
    folded: HashSet<u64>,
    summary: ScanSummary,
}

fn is_word(b: u8) -> bool {
    b.is_ascii_alphanumeric() || b == b'_'
}

impl<'a> Indexed<'a> {
    fn new(table: &WeightTable, doc: &'a [u8]) -> Self {
        let opts = ScanOptions {
            fold: true,
            ..ScanOptions::default()
        };
        Indexed {
            doc,
            spans: scan(table, doc),
            folded: scan_with(table, doc, opts).into_iter().map(|(_, h)| h).collect(),
            summary: summary_of(doc),
        }
    }

    fn some(&self, keys: &[GramKey], test: impl Fn(&Emission) -> bool) -> bool {
        self.spans
            .iter()
            .any(|g| keys.iter().any(|k| k.0 == g.hash) && test(g))
    }

    fn needle(&self, needle: &GramNeedle) -> bool {
        let doc = self.doc;
        let word_opens = |g: &Emission| g.start == 0 || !is_word(doc[g.start - 1]);
        let word_closes = |g: &Emission| g.end == doc.len() || !is_word(doc[g.end]);
        let line_opens = |g: &Emission| g.start == 0 || doc[g.start - 1] == b'\n';
        let line_closes = |g: &Emission| g.end == doc.len() || doc[g.end] == b'\n';
        match needle {
            GramNeedle::Key(key) => self.some(&[*key], |_| true),
            GramNeedle::AnyKey(keys) => {
                self.some(keys, |_| true) || keys.iter().any(|k| self.folded.contains(&k.0))
            }
            GramNeedle::AtWordEdge {
                keys,
                starts,
                ends,
                whole,
            } => {
                (!starts || self.some(keys, word_opens))
                    && (!ends || self.some(keys, word_closes))
                    && (!whole || self.some(keys, |g| word_opens(g) && word_closes(g)))
            }
            GramNeedle::AtLineEdge { keys, starts, ends } => {
                (!starts || self.some(keys, line_opens)) && (!ends || self.some(keys, line_closes))
            }
        }
    }

    fn holds(&self, expr: &PlanExpr) -> bool {
        match expr {
            PlanExpr::All => true,
            PlanExpr::Nothing => false,
            PlanExpr::AllOf {
                grams,
                needs,
                children,
            } => {
                grams.iter().all(|g| self.needle(g))
                    && needs.iter().all(|n| n.satisfied_by(&self.summary))
                    && children.iter().all(|c| self.holds(c))
            }
            PlanExpr::AnyOf {
                grams,
                needs,
                children,
            } => {
                grams.iter().any(|g| self.needle(g))
                    || needs.iter().any(|n| n.satisfied_by(&self.summary))
                    || children.iter().any(|c| self.holds(c))
            }
        }
    }
}

/// Patterns with documents that hold a match of them.
fn matches() -> Vec<(&'static str, Vec<&'static str>)> {
    vec![
        ("sched[_-]clock", vec!["int sched_clock;", "sched-clock"]),
        ("b*a+xyz", vec!["axyz", "aaxyz", "bbaaxyz"]),
        ("xyza+b*", vec!["xyza", "xyzaab"]),
        ("(foo)*", vec!["", "bar", "foofoo"]),
        ("(?:abc)*|xyz", vec!["q", "abcabc", "xyz"]),
        ("(?:abc)*^x", vec!["x", "abc\nx"]),
        ("abc.*(def|ghi)", vec!["abc -- ghi", "abcdef"]),
        ("(?i)netif_receive", vec!["NETIF_receive", "netif_RECEIVE();"]),
        ("(?i:ab)CD", vec!["xABCD", "aBCD"]),
        (r"\bmax_file\b", vec!["max_file", "(max_file)", "a max_file b"]),
        ("^#define CONFIG$", vec!["#define CONFIG", "x\n#define CONFIG\ny"]),
        (r"\A#include", vec!["#include <a>"]),
        (r"return 0;\z", vec!["{ return 0;"]),
        ("foo[α-ω]bar", vec!["fooβbar"]),
        (r"read\p{Greek}+lock", vec!["readαβγlock"]),
        ("[A-Za-z\\p{Cyrillic}]{2}name", vec!["жжname", "xyname"]),
        ("h{3,5}i", vec!["hhhi", "hhhhhi"]),
        ("(a|bc){2,}end", vec!["abcend", "bcaaend"]),
        (r"\d{4}-\d{2}", vec!["on 2024-05 it"]),
        ("x?y?z?done", vec!["done", "xzdone"]),
        ("(^int|^long) main", vec!["int main", "a\nlong main"]),
        ("foo;?$", vec!["foo", "foo;\n"]),
        ("(?s)static.*return", vec!["static\nint\nreturn"]),
        (r"(?:^|\n)end", vec!["end", "the\nend"]),
        (r"a\b-b", vec!["a-b"]),
    ]
}

#[test]
fn plans_hold_on_documents_that_match() {
    for table in tables() {
        for (pattern, docs) in matches() {
            let plan = query(&table, pattern).expect("pattern plans");
            for doc in docs {
                let index = Indexed::new(&table, doc.as_bytes());
                assert!(
                    index.holds(plan.root()),
                    "{pattern:?} must hold on {doc:?}: {}",
                    plan.render()
                );
            }
        }
    }
}

#[test]
fn tuned_plans_still_hold() {
    for table in tables() {
        for (pattern, docs) in matches() {
            for (count, stop) in [(0u64, 0u64), (5, 3), (900, 400)] {
                let mut plan = query(&table, pattern).expect("pattern plans");
                let before = plan.gram_count();
                let mut needles = Vec::new();
                collect(plan.root(), &mut needles);
                let counts = needles
                    .iter()
                    .flat_map(|n| n.keys())
                    .map(|k| (k, (k.0 % 7) * count))
                    .collect();
                plan.tune_with(
                    &DfSnapshot {
                        counts,
                        total: 1000,
                    },
                    stop,
                );
                assert!(plan.gram_count() <= before);
                for doc in &docs {
                    let index = Indexed::new(&table, doc.as_bytes());
                    assert!(index.holds(plan.root()), "{pattern:?} on {doc:?}");
                }
            }
        }
    }
}

fn collect(expr: &PlanExpr, out: &mut Vec<GramNeedle>) {
    if let PlanExpr::AllOf {
        grams, children, ..
    }
    | PlanExpr::AnyOf {
        grams, children, ..
    } = expr
    {
        out.extend(grams.iter().cloned());
        for child in children {
            collect(child, out);
        }
    }
}

#[test]
fn plans_turn_other_documents_away() {
    let table = &tables()[0];
    for (pattern, doc) in [
        ("sched_clock", "sched boost clock"),
        (r"\bmax_file\b", "xmax_filey"),
        ("^done$", "x undones"),
        (r"\A#include", "int a;\n#include <b>"),
        ("[0-9]xyzvault", "axyzvault"),
    ] {
        let plan = query(table, pattern).expect("pattern plans");
        let index = Indexed::new(table, doc.as_bytes());
        assert!(!index.holds(plan.root()), "{pattern:?} on {doc:?}");
    }
}

fn tree_holds(plan: &plan::QueryPlan, grams: &HashSet<Vec<u8>>) -> bool {
    match plan {
        plan::QueryPlan::All => true,
        plan::QueryPlan::Nothing => false,
        plan::QueryPlan::And { grams: own, sub } => {
            own.iter().all(|g| grams.contains(g.as_bytes()))
                && sub.iter().all(|p| tree_holds(p, grams))
        }
        plan::QueryPlan::Or { grams: own, sub } => {
            own.iter().any(|g| grams.contains(g.as_bytes()))
                || sub.iter().any(|p| tree_holds(p, grams))
        }
    }
}

#[test]
fn planned_queries_hold_with_and_without_sentinels() {
    let mut cases = matches();
    cases.extend([
        ("\n(^beta)", vec!["\nbeta", "x\nbeta"]),
        ("\n(?:^beta|x)", vec!["alpha\nbeta"]),
        (r"^\Afoobar", vec!["foobar"]),
        (r"^x*\Afoobar", vec!["foobar"]),
        (r"x*\A$", vec![""]),
        (r"foobar\z$", vec!["foobar"]),
        ("(^foobar)", vec!["foobar", "a\nfoobar"]),
        ("(foobar$)\\b", vec!["foobar"]),
        ("(^foo|bar)baz$", vec!["foobaz", "xbarbaz\n"]),
        (r"\b^foobar", vec!["foobar"]),
        ("(^foobar)+", vec!["foobar", "a\nfoobar"]),
        ("(?:^foobar)*x", vec!["x", "foobarx"]),
        ("(foobar$)+", vec!["foobar", "foobar\nb"]),
        ("(^foo\n)+", vec!["foo\n", "a\nfoo\nfoo\n"]),
        ("(\nfoo$)+", vec!["\nfoo", "\nfoo\nfoo\nb"]),
        ("(?:^x|y)+zab", vec!["xyzab", "yyzab", "a\nxyzab"]),
        (r"(?:^foo(?:\n|;))+bar", vec!["foo;bar", "foo\nfoo;bar"]),
        ("x?(^foobar)", vec!["foobar", "a\nfoobar"]),
        ("\n?(^foobar)", vec!["foobar", "\nfoobar", "a\n\nfoobar"]),
        ("(^x?)(^foobar)", vec!["foobar", "a\nfoobar"]),
        ("(^x?)+(^foobar)", vec!["foobar", "a\nfoobar"]),
        ("(^)(^foobar)", vec!["foobar", "a\nfoobar"]),
        ("(foobar$)y?", vec!["foobar", "foobar\nb"]),
        ("(foobar$)\n?", vec!["foobar", "foobar\n", "foobar\nb"]),
        ("(foobar$)(x?$)", vec!["foobar", "foobar\nb"]),
        ("(foobar$)(x?$)+", vec!["foobar", "foobar\nb"]),
        (r"(x*$)\A", vec!["", "\na"]),
        (r"\z(^x*)", vec!["", "a\n"]),
        (r"(z*)(x*\A$)", vec!["", "\na"]),
        (r"z*(^\Afoobar)", vec!["foobar"]),
        ("(?:^foobar|x?)+zed", vec!["foobarzed", "xxzed", "a\nfoobarzed", "zed"]),
        ("(?:x?|foobar$)+", vec!["foobar", "xxfoobar\n", "x"]),
        ("(?:a|\n)(^foobar)", vec!["a\nfoobar"]),
        ("(?R)\\r?(^foobar)", vec!["a\rfoobar", "a\r\nfoobar", "foobar"]),
        ("(?R)(foobar$)\\r?\\n?", vec!["foobar\r\n", "foobar\n", "foobar\rb"]),
        ("(?R:x*$)(?-R:^)", vec!["", "x", "a\n\rb"]),
        ("(?-R:$)(?R:^x*)", vec!["", "a\r\nb", "a\r"]),
        (r"foobar\b$", vec!["foobar", "foobar\nb"]),
        ("foobar;\\B$", vec!["foobar;", "foobar;\nb"]),
        ("x?^$", vec!["", "a\n\nb"]),
        ("a\n?(^foobar)", vec!["a\nfoobar"]),
        (r"a\s*(^foobar)", vec!["a\nfoobar", "a \n\tb\na  \nfoobar"]),
        ("(?s)a.*(^foobar)", vec!["a\nfoobar", "ab\nc\nfoobar"]),
        (r"(foobar$)\s*z", vec!["foobar\nz", "foobar\n  z"]),
        (r"(foobar$)\s*(^zed)", vec!["foobar\nzed", "foobar\n \nzed"]),
        (r"z\s+(^foobar)", vec!["z\nfoobar", "z \nfoobar"]),
        ("(?:ab\n)?(^foobar)", vec!["ab\nfoobar", "foobar", "x\nfoobar"]),
        ("z(?:ab\n)?(^foobar)", vec!["zab\nfoobar"]),
        ("(?:.*\n)*(?:^foobar|^barfoo)", vec!["a\nb\nbarfoo", "foobar"]),
        ("(foobar$)(?:\nab)*", vec!["foobar\nab\nab", "foobar"]),
        ("(foobar$)(?:\nab)?z*", vec!["foobar\nab", "foobar\nabzz"]),
        (r"x*(?:a\n|\b)(^foobar)", vec!["a\nfoobar", "xa\nfoobar", "foobar"]),
    ]);
    for table in tables() {
        for line_sentinels in [false, true] {
            for folded_space in [false, true] {
                for (pattern, docs) in &cases {
                    let opts = plan::QueryOptions {
                        line_sentinels,
                        folded_space,
                        ..plan::QueryOptions::default()
                    };
                    let planned = plan::query(&table, &[pattern], opts).expect("pattern plans");
                    for doc in docs {
                        let scanned = scan_with(
                            &table,
                            doc.as_bytes(),
                            ScanOptions {
                                line_sentinels,
                                fold: planned.space == plan::GramSpace::Folded,
                                ..ScanOptions::default()
                            },
                        );
                        let grams = scanned.into_iter().map(|(g, _)| g).collect();
                        assert!(
                            tree_holds(&planned.plan, &grams),
                            "{pattern:?} must hold on {doc:?} under {opts:?}"
                        );
                    }
                }
            }
        }
    }
}
