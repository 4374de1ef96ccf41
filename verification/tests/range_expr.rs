//! The library's range expressions agree with `openjd_expr::RangeExpr` on
//! length, indexing, membership and display.

use openjd_model::range_expr::RangeExpr;

fn outside(text: &str) -> openjd_expr::RangeExpr {
    text.parse::<openjd_expr::RangeExpr>().unwrap()
}

const TEXTS: [&str; 8] = ["1-10", "5", "1-9:2,20-30:5", "-5--1", "1-7:3", "1,3,5,7", " 2 - 8 : 3 , 11 ", "0-0,2-2,100-200:50"];

#[test]
fn length_and_display_agree_with_the_expression_library() {
    for text in TEXTS {
        let ours = RangeExpr::parse(text).unwrap();
        let theirs = outside(text);
        assert_eq!(ours.len(), theirs.len(), "{text}");
        assert_eq!(ours.to_text(), theirs.to_string(), "{text}");
    }
}

#[test]
fn indexing_and_membership_agree_with_the_expression_library() {
    for text in TEXTS {
        let ours = RangeExpr::parse(text).unwrap();
        let theirs = outside(text);
        for i in 0..(theirs.len() as u64 + 2) {
            assert_eq!(ours.get(i), theirs.get(i as i64), "{text} [{i}]");
        }
        for v in -12..240 {
            assert_eq!(ours.contains(v), theirs.contains(v), "{text} contains {v}");
        }
    }
}

#[test]
fn contiguous_display_agrees_with_the_expression_library() {
    for (start, end) in [(3, 3), (1, 9), (-4, 2)] {
        let ours = RangeExpr::from_span(start, end, true);
        let text = if start == end { format!("{start}") } else { format!("{start}-{end}") };
        let theirs = outside(&text).with_contiguous(true);
        assert_eq!(ours.to_text(), theirs.to_string());
        assert_eq!(RangeExpr::from_span(start, end, false).to_text(), outside(&text).to_string());
    }
}
