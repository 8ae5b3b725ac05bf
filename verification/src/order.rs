//! The order of spans: by file name first, then by where they begin, then
//! by where they end.

use crate::span::{Span, SpanView};
use crate::text::lemma_encode_injective;
use std::cmp::Ordering;
use vstd::prelude::*;
use vstd::utf8::encode_utf8;

verus! {

/// How one value stands to another in an order.
#[derive(Clone, Copy, PartialEq, Eq, Structural, Debug)]
pub enum Order {
    Before,
    Same,
    After,
}

impl Order {
    /// The same relation, seen from the other value.
    pub open spec fn flip(self) -> Order {
        match self {
            Order::Before => Order::After,
            Order::Same => Order::Same,
            Order::After => Order::Before,
        }
    }
}

/// How `a` stands to `b` when both are read from index `from` on: the
/// first byte in which they differ decides, and where there is none the
/// shorter one comes first.
pub open spec fn lex(a: Seq<u8>, b: Seq<u8>, from: int) -> Order
    decreases a.len() - from,
{
    if from >= a.len() {
        if from >= b.len() {
            Order::Same
        } else {
            Order::Before
        }
    } else if from >= b.len() {
        Order::After
    } else if a[from] < b[from] {
        Order::Before
    } else if a[from] > b[from] {
        Order::After
    } else {
        lex(a, b, from + 1)
    }
}

/// How the integer `a` stands to `b`.
pub open spec fn by_number(a: int, b: int) -> Order {
    if a < b {
        Order::Before
    } else if a > b {
        Order::After
    } else {
        Order::Same
    }
}

/// How the span `a` stands to `b`: the names of their files decide, as the
/// bytes of their UTF-8; between spans of one file the start decides, and
/// between spans that begin together the end.
pub open spec fn span_order(a: SpanView, b: SpanView) -> Order {
    match lex(encode_utf8(a.file), encode_utf8(b.file), 0) {
        Order::Same => match by_number(a.start, b.start) {
            Order::Same => by_number(a.end, b.end),
            other => other,
        },
        other => other,
    }
}

/// How the text `a` stands to `b`, byte by byte.
fn order_of_text(a: &str, b: &str) -> (res: Order)
    ensures
        res == lex(encode_utf8(a@), encode_utf8(b@), 0),
{
    let x = a.as_bytes();
    let y = b.as_bytes();
    let mut i: usize = 0;
    while i < x.len() && i < y.len()
        invariant
            i <= x.len(),
            i <= y.len(),
            x@ == encode_utf8(a@),
            y@ == encode_utf8(b@),
            lex(x@, y@, 0) == lex(x@, y@, i as int),
        decreases x.len() - i,
    {
        if x[i] < y[i] {
            return Order::Before;
        }
        if x[i] > y[i] {
            return Order::After;
        }
        i = i + 1;
    }
    if i < y.len() {
        Order::Before
    } else if i < x.len() {
        Order::After
    } else {
        Order::Same
    }
}

impl Span {
    /// How this span stands to `other` in the order of spans.
    pub fn order(&self, other: &Span) -> (res: Order)
        ensures
            res == span_order(self@, other@),
    {
        match order_of_text(self.file(), other.file()) {
            Order::Same => {
                let a = self.bytes();
                let b = other.bytes();
                if a.start < b.start {
                    Order::Before
                } else if a.start > b.start {
                    Order::After
                } else if a.end < b.end {
                    Order::Before
                } else if a.end > b.end {
                    Order::After
                } else {
                    Order::Same
                }
            },
            other => other,
        }
    }
}

impl PartialOrd for Span {
    fn partial_cmp(&self, other: &Span) -> (res: Option<Ordering>) {
        match self.order(other) {
            Order::Before => Some(Ordering::Less),
            Order::Same => Some(Ordering::Equal),
            Order::After => Some(Ordering::Greater),
        }
    }
}

impl vstd::std_specs::cmp::PartialOrdSpecImpl for Span {
    open spec fn obeys_partial_cmp_spec() -> bool {
        true
    }

    open spec fn partial_cmp_spec(&self, other: &Span) -> Option<Ordering> {
        match span_order(self@, other@) {
            Order::Before => Some(Ordering::Less),
            Order::Same => Some(Ordering::Equal),
            Order::After => Some(Ordering::Greater),
        }
    }
}

/// Two byte strings stand the same from `from` on exactly when they agree
/// from there on.
pub proof fn lemma_lex_same(a: Seq<u8>, b: Seq<u8>, from: int)
    requires
        0 <= from,
    ensures
        lex(a, b, from) == Order::Same <==> (a.len() == b.len() || (from >= a.len() && from
            >= b.len())) && forall|i: int| from <= i < a.len() && i < b.len() ==> a[i] == b[i],
    decreases a.len() - from,
{
    if from < a.len() && from < b.len() {
        lemma_lex_same(a, b, from + 1);
        if a[from] == b[from] {
            if lex(a, b, from + 1) == Order::Same {
                assert forall|i: int| from <= i < a.len() && i < b.len() implies a[i] == b[i] by {
                    if i > from {
                    }
                }
            }
        }
    }
}

/// Seen from the other side, byte strings stand the other way round.
pub proof fn lemma_lex_flips(a: Seq<u8>, b: Seq<u8>, from: int)
    requires
        0 <= from,
    ensures
        lex(b, a, from) == lex(a, b, from).flip(),
    decreases a.len() - from,
{
    if from < a.len() && from < b.len() && a[from] == b[from] {
        lemma_lex_flips(a, b, from + 1);
    }
}

/// Coming before is transitive among byte strings, and so is standing the same.
pub proof fn lemma_lex_transitive(a: Seq<u8>, b: Seq<u8>, c: Seq<u8>, from: int)
    requires
        0 <= from,
    ensures
        lex(a, b, from) == Order::Before && lex(b, c, from) != Order::After ==> lex(a, c, from)
            == Order::Before,
        lex(a, b, from) == Order::Same && lex(b, c, from) == Order::Before ==> lex(a, c, from)
            == Order::Before,
        lex(a, b, from) == Order::Same && lex(b, c, from) == Order::Same ==> lex(a, c, from)
            == Order::Same,
    decreases a.len() - from,
{
    if from < a.len() && from < b.len() && from < c.len() && a[from] == b[from] && b[from]
        == c[from] {
        lemma_lex_transitive(a, b, c, from + 1);
    }
}

/// The order of spans is total: two spans stand the same exactly when
/// they are the same span, seen from the other side they stand the other
/// way round, and coming before is transitive.
pub proof fn lemma_span_order_total(a: SpanView, b: SpanView, c: SpanView)
    ensures
        span_order(a, b) == Order::Same <==> a == b,
        span_order(b, a) == span_order(a, b).flip(),
        span_order(a, b) == Order::Before && span_order(b, c) == Order::Before ==> span_order(a, c)
            == Order::Before,
{
    let x = encode_utf8(a.file);
    let y = encode_utf8(b.file);
    let z = encode_utf8(c.file);
    lemma_lex_same(x, y, 0);
    lemma_lex_flips(x, y, 0);
    lemma_lex_transitive(x, y, z, 0);
    if lex(x, y, 0) == Order::Same {
        assert(x =~= y);
        lemma_encode_injective(a.file, b.file);
    }
    if a == b {
        assert(x == y);
    }
}

} // verus!
