use lexparse::span::{CodePoint, Span};

#[test]
fn span_merge() {
    let start = CodePoint::new_unchecked(1, 3);
    let end = CodePoint::new_unchecked(2, 3);

    let first = start.span(end);

    let start = CodePoint::new_unchecked(2, 0);
    let end = CodePoint::new_unchecked(5, 10);

    let second = start.span(end);

    let combine = first.merge(second);

    assert_eq!(
        combine,
        Span {
            start: CodePoint { row: 1, col: 3 },
            end: CodePoint { row: 5, col: 10 }
        }
    )
}

#[test]
fn span_merge_commutes() {
    let a = CodePoint::new_unchecked(1, 1).span(CodePoint::new_unchecked(1, 4));
    let b = CodePoint::new_unchecked(3, 2).span(CodePoint::new_unchecked(4, 1));
    assert_eq!(a.merge(b), b.merge(a));
}

#[test]
fn span_merge_associates() {
    let a = CodePoint::new_unchecked(1, 1).span(CodePoint::new_unchecked(1, 4));
    let b = CodePoint::new_unchecked(3, 2).span(CodePoint::new_unchecked(4, 1));
    let c = CodePoint::new_unchecked(2, 9).span(CodePoint::new_unchecked(9, 9));
    assert_eq!(a.merge(b).merge(c), a.merge(b.merge(c)));
}

#[test]
fn span_accessors() {
    let start = CodePoint::new_unchecked(2, 7);
    let end = CodePoint::new_unchecked(2, 9);
    let span = start.span(end);
    assert_eq!(span.start(), start);
    assert_eq!(span.end(), end);
    assert_eq!(start.row(), 2);
    assert_eq!(start.col(), 7);
}
