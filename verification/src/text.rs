use vstd::prelude::*;

verus! {

/// The decimal digit for `k` below ten.
pub open spec fn digit_char(k: nat) -> char {
    (48 + k) as char
}

/// The decimal representation of `n`, without leading zeros.
pub open spec fn decimal(n: nat) -> Seq<char>
    decreases n,
{
    if n < 10 {
        seq![digit_char(n)]
    } else {
        decimal(n / 10).push(digit_char(n % 10))
    }
}

/// Different numbers have different decimal representations.
pub proof fn lemma_decimal_injective(a: nat, b: nat)
    requires
        decimal(a) == decimal(b),
    ensures
        a == b,
    decreases a,
{
    lemma_decimal_len(a);
    lemma_decimal_len(b);
    if a < 10 && b < 10 {
        assert(decimal(a)[0] == digit_char(a));
        assert(decimal(b)[0] == digit_char(b));
    } else if a >= 10 && b >= 10 {
        assert(decimal(a).last() == digit_char(a % 10));
        assert(decimal(b).last() == digit_char(b % 10));
        assert(decimal(a / 10) == decimal(a).drop_last());
        assert(decimal(b / 10) == decimal(b).drop_last());
        lemma_decimal_injective(a / 10, b / 10);
    } else if a < 10 {
        lemma_decimal_len(b / 10);
    } else {
        lemma_decimal_len(a / 10);
    }
}

/// A decimal representation is not empty.
pub proof fn lemma_decimal_len(n: nat)
    ensures
        decimal(n).len() >= 1,
        n >= 10 ==> decimal(n).len() >= 2,
    decreases n,
{
    if n >= 10 {
        lemma_decimal_len(n / 10);
    }
}

/// The text "Node " followed by the number.
pub open spec fn node_label(n: nat) -> Seq<char> {
    seq!['N', 'o', 'd', 'e', ' '] + decimal(n)
}

/// Different numbers give different node labels.
pub proof fn lemma_node_label_injective(a: nat, b: nat)
    requires
        node_label(a) == node_label(b),
    ensures
        a == b,
{
    let p = seq!['N', 'o', 'd', 'e', ' '];
    assert(decimal(a) =~= node_label(a).subrange(5, node_label(a).len() as int));
    assert(decimal(b) =~= node_label(b).subrange(5, node_label(b).len() as int));
    lemma_decimal_injective(a, b);
}

/// `format!("{}", n)`: the number in decimal.
#[verifier::external_body]
pub(crate) fn format_decimal(n: u64) -> (s: String)
    ensures
        s@ == decimal(n as nat),
{
    format!("{}", n)
}

/// `k` spaces.
pub open spec fn spaces(k: nat) -> Seq<char> {
    Seq::new(k, |i: int| ' ')
}

/// A text of `k` spaces.
pub(crate) fn space_text(k: usize) -> (s: String)
    ensures
        s@ == spaces(k as nat),
{
    let mut s = String::new();
    let mut i: usize = 0;
    proof {
        reveal_strlit(" ");
    }
    while i < k
        invariant
            i <= k,
            s@ == spaces(i as nat),
            " "@ == seq![' '],
        decreases k - i,
    {
        s.append(" ");
        i = i + 1;
        assert(s@ =~= spaces(i as nat));
    }
    s
}

/// The text "Node " and the number in decimal.
pub(crate) fn format_node_label(n: usize) -> (s: String)
    ensures
        s@ == node_label(n as nat),
{
    proof {
        reveal_strlit("Node ");
        assert("Node "@ =~= seq!['N', 'o', 'd', 'e', ' ']);
    }
    let number = format_decimal(n as u64);
    String::from_str("Node ").concat(number.as_str())
}

} // verus!
