//! Switch labels and the lexicographic order used to canonicalize them.

use vstd::prelude::*;

verus! {

/// Identifier of the capture-point switch an observation came from,
/// derived from the capture file's name (the part before the first `-`).
#[derive(Debug, PartialEq, Eq, Hash)]
pub struct MininetSwitch(String);

impl View for MininetSwitch {
    type V = Seq<char>;

    closed spec fn view(&self) -> Seq<char> {
        self.0@
    }
}

impl Clone for MininetSwitch {
    fn clone(&self) -> (r: Self)
        ensures
            r@ == self@,
    {
        MininetSwitch(self.0.clone())
    }
}

impl MininetSwitch {
    pub fn new(name: String) -> (r: Self)
        ensures
            r@ == name@,
    {
        MininetSwitch(name)
    }

    pub fn get(&self) -> (r: &str)
        ensures
            r@ == self@,
    {
        self.0.as_str()
    }

    /// Value equality of two labels.
    pub fn same_label(&self, other: &Self) -> (r: bool)
        ensures
            r == (self@ == other@),
    {
        self.0 == other.0
    }

    /// Strict lexicographic order on labels, by Unicode code point.
    pub fn label_lt(&self, other: &Self) -> (r: bool)
        ensures
            r == lex_lt(self@, other@),
    {
        str_lex_lt(self.0.as_str(), other.0.as_str())
    }
}

/// Strict lexicographic order on character sequences, by code point.
pub open spec fn lex_lt(a: Seq<char>, b: Seq<char>) -> bool
    decreases a.len(),
{
    if b.len() == 0 {
        false
    } else if a.len() == 0 {
        true
    } else if a[0] != b[0] {
        (a[0] as int) < (b[0] as int)
    } else {
        lex_lt(a.drop_first(), b.drop_first())
    }
}

/// No sequence is lexicographically below itself.
pub proof fn lemma_lex_irreflexive(a: Seq<char>)
    ensures
        !lex_lt(a, a),
    decreases a.len(),
{
    if a.len() > 0 {
        lemma_lex_irreflexive(a.drop_first());
    }
}

/// The lexicographic order runs one way only.
pub proof fn lemma_lex_asymmetric(a: Seq<char>, b: Seq<char>)
    requires
        lex_lt(a, b),
    ensures
        !lex_lt(b, a),
    decreases a.len(),
{
    if a.len() > 0 && b.len() > 0 && a[0] == b[0] {
        lemma_lex_asymmetric(a.drop_first(), b.drop_first());
    }
}

/// Two sequences neither of which is below the other are equal.
pub proof fn lemma_lex_connected(a: Seq<char>, b: Seq<char>)
    requires
        !lex_lt(a, b),
        !lex_lt(b, a),
    ensures
        a == b,
    decreases a.len(),
{
    if a.len() == 0 || b.len() == 0 {
        assert(a =~= b);
    } else {
        assert(a[0] == b[0]) by {
            if a[0] != b[0] {
                assert(lex_lt(a, b) == ((a[0] as int) < (b[0] as int)));
                assert(lex_lt(b, a) == ((b[0] as int) < (a[0] as int)));
            }
        }
        lemma_lex_connected(a.drop_first(), b.drop_first());
        assert(a =~= seq![a[0]] + a.drop_first());
        assert(b =~= seq![b[0]] + b.drop_first());
    }
}

/// The lexicographic order is transitive.
pub proof fn lemma_lex_transitive(a: Seq<char>, b: Seq<char>, c: Seq<char>)
    requires
        lex_lt(a, b),
        lex_lt(b, c),
    ensures
        lex_lt(a, c),
    decreases a.len(),
{
    if a.len() == 0 {
        assert(b.len() > 0 && c.len() > 0);
    } else if a.len() > 0 && b.len() > 0 && c.len() > 0 {
        if a[0] == b[0] && b[0] == c[0] {
            lemma_lex_transitive(a.drop_first(), b.drop_first(), c.drop_first());
        }
    }
}

/// Shifting past a shared first character keeps the order unchanged.
proof fn lemma_lex_skip_one(a: Seq<char>, b: Seq<char>, i: int)
    requires
        0 <= i < a.len(),
        i < b.len(),
        a[i] == b[i],
    ensures
        lex_lt(a.skip(i), b.skip(i)) == lex_lt(a.skip(i + 1), b.skip(i + 1)),
{
    assert(a.skip(i).len() > 0);
    assert(b.skip(i).len() > 0);
    assert(a.skip(i)[0] == a[i]);
    assert(b.skip(i)[0] == b[i]);
    assert(a.skip(i).drop_first() =~= a.skip(i + 1));
    assert(b.skip(i).drop_first() =~= b.skip(i + 1));
}

/// Executable lexicographic comparison of two strings.
pub fn str_lex_lt(a: &str, b: &str) -> (r: bool)
    ensures
        r == lex_lt(a@, b@),
{
    let a_len = a.unicode_len();
    let b_len = b.unicode_len();
    let mut i: usize = 0;
    proof {
        assert(a@.skip(0) =~= a@);
        assert(b@.skip(0) =~= b@);
    }
    loop
        invariant
            i <= a_len,
            i <= b_len,
            a_len == a@.len(),
            b_len == b@.len(),
            lex_lt(a@, b@) == lex_lt(a@.skip(i as int), b@.skip(i as int)),
        decreases a_len - i,
    {
        if i == b_len {
            assert(b@.skip(i as int).len() == 0);
            return false;
        }
        if i == a_len {
            assert(a@.skip(i as int).len() == 0);
            assert(b@.skip(i as int).len() > 0);
            return true;
        }
        let ca = a.get_char(i);
        let cb = b.get_char(i);
        if ca != cb {
            assert(a@.skip(i as int)[0] == a@[i as int]);
            assert(b@.skip(i as int)[0] == b@[i as int]);
            return (ca as u32) < (cb as u32);
        }
        proof {
            lemma_lex_skip_one(a@, b@, i as int);
        }
        i += 1;
    }
}

/// Length of the label prefix of a file name: the characters before the
/// first `-`, or the whole name when it has none.
pub open spec fn label_prefix_len(s: Seq<char>) -> int
    decreases s.len(),
{
    if s.len() == 0 {
        0
    } else if s[0] == '-' {
        0
    } else {
        1 + label_prefix_len(s.drop_first())
    }
}

/// The switch label a capture file name encodes.
pub open spec fn switch_label_of(s: Seq<char>) -> Seq<char> {
    s.take(label_prefix_len(s))
}

proof fn lemma_label_prefix_at(s: Seq<char>, i: int)
    requires
        0 <= i <= s.len(),
        forall|j: int| 0 <= j < i ==> s[j] != '-',
        i == s.len() || s[i] == '-',
    ensures
        label_prefix_len(s) == i,
    decreases i,
{
    if i == 0 {
    } else {
        assert(s[0] != '-');
        assert(forall|j: int| 0 <= j < i - 1 ==> s.drop_first()[j] == s[j + 1]);
        lemma_label_prefix_at(s.drop_first(), i - 1);
    }
}

/// Derives the switch label encoded by a capture file name: the part of
/// the name before the first `-` (the whole name when it has no `-`).
pub fn switch_label_of_filename(name: &str) -> (r: MininetSwitch)
    ensures
        r@ == switch_label_of(name@),
{
    let len = name.unicode_len();
    let mut i: usize = 0;
    loop
        invariant_except_break
            i <= len,
            len == name@.len(),
            forall|j: int| 0 <= j < i ==> name@[j] != '-',
        ensures
            i <= len,
            len == name@.len(),
            forall|j: int| 0 <= j < i ==> name@[j] != '-',
            i == len || name@[i as int] == '-',
        decreases len - i,
    {
        if i == len {
            break;
        }
        if name.get_char(i) == '-' {
            break;
        }
        i += 1;
    }
    proof {
        lemma_label_prefix_at(name@, i as int);
    }
    let prefix = name.substring_char(0, i);
    assert(prefix@ =~= switch_label_of(name@));
    MininetSwitch::new(prefix.to_owned())
}

} // verus!
