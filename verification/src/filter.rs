//! Signal selection: a filter built from a message's signal-list annotation
//! (a comma-separated list of signal names) that decides which signals of a
//! message are materialised.  An absent or empty list admits every signal.

use vstd::prelude::*;

verus! {

/// Whitespace stripped from around the names of a signal list.
pub open spec fn is_sep_space(c: char) -> bool {
    c == ' ' || c == '\t' || c == '\n' || c == '\r'
}

/// A character sequence with its surrounding whitespace removed.
pub open spec fn trim_spec(s: Seq<char>) -> Seq<char>
    decreases s.len(),
{
    if s.len() == 0 {
        s
    } else if is_sep_space(s[0]) {
        trim_spec(s.skip(1))
    } else if is_sep_space(s[s.len() - 1]) {
        trim_spec(s.take(s.len() - 1))
    } else {
        s
    }
}

/// The comma-separated pieces of a character sequence, in order.  Empty
/// pieces are kept, and a sequence without a comma is a single piece.
pub open spec fn split_commas(s: Seq<char>) -> Seq<Seq<char>>
    decreases s.len(),
{
    if s.len() == 0 {
        seq![Seq::<char>::empty()]
    } else {
        let rest = split_commas(s.drop_last());
        if s.last() == ',' {
            rest.push(Seq::<char>::empty())
        } else {
            rest.update(rest.len() - 1, rest.last().push(s.last()))
        }
    }
}

/// A split always yields at least one piece.
pub proof fn lemma_split_commas_nonempty(s: Seq<char>)
    ensures
        split_commas(s).len() >= 1,
    decreases s.len(),
{
    if s.len() > 0 {
        lemma_split_commas_nonempty(s.drop_last());
    }
}

/// The names a signal-list annotation carries: its comma-separated pieces,
/// each trimmed.
pub open spec fn signal_list_names(s: Seq<char>) -> Seq<Seq<char>> {
    split_commas(s).map_values(|p: Seq<char>| trim_spec(p))
}

/// The character sequences of a list of strings.
pub open spec fn names_view(names: Seq<String>) -> Seq<Seq<char>> {
    names.map_values(|n: String| n@)
}

/// Whether a character matches the whitespace stripped by the filter.
fn sep_space(c: char) -> (r: bool)
    ensures
        r == is_sep_space(c),
{
    c == ' ' || c == '\t' || c == '\n' || c == '\r'
}

/// The characters `from .. to` of `s`, with surrounding whitespace removed.
fn trimmed(s: &str, from: usize, to: usize) -> (r: String)
    requires
        from <= to <= s@.len(),
    ensures
        r@ == trim_spec(s@.subrange(from as int, to as int)),
{
    let mut a = from;
    let mut b = to;
    while a < b && sep_space(s.get_char(a))
        invariant
            from <= a <= b <= to,
            to <= s@.len(),
            trim_spec(s@.subrange(from as int, to as int)) == trim_spec(
                s@.subrange(a as int, b as int),
            ),
        decreases b - a,
    {
        proof {
            let sub = s@.subrange(a as int, b as int);
            assert(sub[0] == s@[a as int]);
            assert(sub.skip(1) =~= s@.subrange(a + 1, b as int));
        }
        a = a + 1;
    }
    while a < b && sep_space(s.get_char(b - 1))
        invariant
            from <= a <= b <= to,
            to <= s@.len(),
            trim_spec(s@.subrange(from as int, to as int)) == trim_spec(
                s@.subrange(a as int, b as int),
            ),
            a < b ==> !is_sep_space(s@[a as int]),
        decreases b - a,
    {
        proof {
            let sub = s@.subrange(a as int, b as int);
            assert(sub[0] == s@[a as int]);
            assert(sub[sub.len() - 1] == s@[b - 1]);
            assert(sub.take(sub.len() - 1) =~= s@.subrange(a as int, b - 1));
        }
        b = b - 1;
    }
    proof {
        let sub = s@.subrange(a as int, b as int);
        if a < b {
            assert(sub[0] == s@[a as int]);
            assert(sub[sub.len() - 1] == s@[b - 1]);
        }
        assert(trim_spec(sub) == sub);
    }
    let piece = s.substring_char(a, b);
    piece.to_owned()
}

/// Filters signals by the names of a signal-list annotation.
pub struct SignalFilter {
    /// The trimmed names of the list, in order; empty means no restriction.
    pub names: Vec<String>,
}

impl SignalFilter {
    /// Whether a signal of the given name passes the filter: the list is
    /// empty, or carries the name.
    pub open spec fn spec_use_signal(self, name: Seq<char>) -> bool {
        self.names@.len() == 0 || exists|i: int|
            0 <= i < self.names@.len() && (#[trigger] self.names@[i])@ == name
    }

    /// Create a signal filter from a message's signal-list annotation:
    /// `None` (no annotation) admits every signal; otherwise the annotation
    /// is split at commas and each name is trimmed.
    #[verifier::loop_isolation(false)]
    pub fn new(list: Option<&str>) -> (r: Self)
        ensures
            match list {
                None => r.names@.len() == 0,
                Some(s) => names_view(r.names@) == signal_list_names(s@),
            },
    {
        match list {
            None => SignalFilter { names: Vec::new() },
            Some(s) => {
                let n = s.unicode_len();
                let mut names: Vec<String> = Vec::new();
                let mut seg_start: usize = 0;
                let mut i: usize = 0;
                while i < n
                    invariant
                        seg_start <= i <= n,
                        split_commas(s@.take(i as int)).len() == names@.len() + 1,
                        forall|j: int|
                            0 <= j < names@.len() ==> (#[trigger] names@[j])@ == trim_spec(
                                split_commas(s@.take(i as int))[j],
                            ),
                        split_commas(s@.take(i as int)).last() == s@.subrange(
                            seg_start as int,
                            i as int,
                        ),
                    decreases n - i,
                {
                    proof {
                        assert(s@.take(i + 1).drop_last() =~= s@.take(i as int));
                        assert(s@.take(i + 1).last() == s@[i as int]);
                        lemma_split_commas_nonempty(s@.take(i as int));
                    }
                    let c = s.get_char(i);
                    if c == ',' {
                        let piece = trimmed(s, seg_start, i);
                        names.push(piece);
                        seg_start = i + 1;
                        proof {
                            assert(s@.subrange((i + 1) as int, (i + 1) as int)
                                =~= Seq::<char>::empty());
                        }
                    } else {
                        proof {
                            assert(s@.subrange(seg_start as int, i as int).push(s@[i as int])
                                =~= s@.subrange(seg_start as int, (i + 1) as int));
                        }
                    }
                    i = i + 1;
                }
                proof {
                    assert(s@.take(n as int) =~= s@);
                    lemma_split_commas_nonempty(s@);
                }
                let piece = trimmed(s, seg_start, n);
                names.push(piece);
                proof {
                    assert(names_view(names@) =~= signal_list_names(s@));
                }
                SignalFilter { names }
            },
        }
    }

    /// Return whether a signal should be used, i.e. whether it is in the
    /// filter list or the list is empty.
    #[verifier::loop_isolation(false)]
    pub fn use_signal(&self, name: &str) -> (r: bool)
        ensures
            r == self.spec_use_signal(name@),
    {
        let n = self.names.len();
        if n == 0 {
            return true;
        }
        let owned: String = name.to_owned();
        let mut i: usize = 0;
        while i < n
            invariant
                i <= n,
                owned@ == name@,
                forall|j: int| 0 <= j < i ==> (#[trigger] self.names@[j])@ != name@,
            decreases n - i,
        {
            if self.names[i] == owned {
                return true;
            }
            i = i + 1;
        }
        false
    }
}

} // verus!
