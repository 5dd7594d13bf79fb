//! Names for output files that do not overwrite what is there.

use crate::cli;
use crate::text;
use crate::text::{chars_of, push_decimal, string_of};
use vstd::prelude::*;
use vstd::string::*;

verus! {

/// Where the extension of a file name starts: at its last dot, unless that is
/// its first character or the name is two dots.
pub open spec fn extension_at(name: Seq<char>) -> Option<int> {
    if name == seq!['.', '.'] {
        None
    } else {
        last_dot(name)
    }
}

/// The last dot of `name` that is not its first character.
pub open spec fn last_dot(name: Seq<char>) -> Option<int>
    decreases name.len(),
{
    if name.len() <= 1 {
        None
    } else if name.last() == '.' {
        Some(name.len() - 1)
    } else {
        last_dot(name.drop_last())
    }
}

/// The `n`-th name to try for `name`: the name itself, then the name with a
/// number in front of its extension.
pub open spec fn candidate(name: Seq<char>, n: nat) -> Seq<char> {
    if n == 0 {
        name
    } else {
        let at = match extension_at(name) {
            Some(at) => at,
            None => name.len() as int,
        };
        name.take(at) + " ("@ + text::decimal(n) + ")"@ + name.skip(at)
    }
}

/// The first of the names that is not taken, where `taken` tells it of each.
pub open spec fn first_free(taken: Seq<bool>) -> Option<nat>
    decreases taken.len(),
{
    if taken.len() == 0 {
        None
    } else {
        match first_free(taken.drop_last()) {
            Some(n) => Some(n),
            None => if taken.last() {
                None
            } else {
                Some((taken.len() - 1) as nat)
            },
        }
    }
}

/// A search for a name that is not taken.
pub struct OutputName {
    name: Vec<char>,
    extension: usize,
    next: u64,
}

impl OutputName {
    /// The name that is wanted.
    pub closed spec fn wanted(self) -> Seq<char> {
        self.name@
    }

    /// How many names were found taken.
    pub closed spec fn tried(self) -> nat {
        self.next as nat
    }

    /// The place of the extension is known.
    pub closed spec fn wf(self) -> bool {
        &&& self.extension <= self.name@.len()
        &&& self.extension == match extension_at(self.name@) {
            Some(at) => at,
            None => self.name@.len() as int,
        }
    }

    /// A search for `name`, which is a file name without its directory.
    pub fn new(name: &str) -> (r: Self)
        ensures
            r.wf(),
            r.wanted() == name@,
            r.tried() == 0,
    {
        let chars = chars_of(name);
        let len: usize = chars.len();
        let mut extension: usize = len;
        if !(len == 2 && chars[0] == '.' && chars[1] == '.') {
            assert(chars@ != seq!['.', '.']);
            let mut i: usize = len;
            assert(chars@.take(len as int) =~= chars@);
            while i > 1 && extension == len
                invariant
                    i <= len == chars@.len(),
                    extension == len ==> last_dot(chars@) == last_dot(chars@.take(i as int)),
                    extension != len ==> last_dot(chars@) == Some(extension as int) && extension
                        < len,
                decreases i, len - extension,
            {
                assert(chars@.take(i as int).last() == chars@[i - 1]);
                assert(chars@.take(i as int).drop_last() =~= chars@.take(i - 1));
                if chars[i - 1] == '.' {
                    extension = i - 1;
                }
                i = i - 1;
            }
        } else {
            assert(chars@ =~= seq!['.', '.']);
        }
        OutputName { name: chars, extension, next: 0 }
    }

    /// The name to try next.
    pub fn candidate(&self) -> (r: String)
        requires
            self.wf(),
        ensures
            r@ == candidate(self.wanted(), self.tried()),
    {
        let len: usize = self.name.len();
        if self.next == 0 {
            let r = string_of(&self.name, 0, len);
            assert(r@ =~= self.name@);
            return r;
        }
        let mut s = string_of(&self.name, 0, self.extension);
        s.append(" (");
        push_decimal(&mut s, self.next);
        s.append(")");
        let rest = string_of(&self.name, self.extension, len);
        s.append(rest.as_str());
        proof {
            let at = self.extension as int;
            assert(self.name@.subrange(0, at) =~= self.name@.take(at));
            assert(self.name@.subrange(at, len as int) =~= self.name@.skip(at));
        }
        s
    }

    /// Takes note that the name is taken.
    pub fn on_taken(&mut self)
        requires
            old(self).wf(),
            old(self).tried() < u64::MAX,
        ensures
            final(self).wf(),
            final(self).wanted() == old(self).wanted(),
            final(self).tried() == old(self).tried() + 1,
    {
        self.next = self.next + 1;
    }
}

/// The name to use for the wanted `name`, where `taken` tells of one name after
/// the other whether it is taken: the first that is not. `None` where all of
/// them are.
pub fn resolve_output_path(name: &str, taken: &Vec<bool>) -> (r: Option<String>)
    ensures
        match first_free(taken@) {
            Some(n) => r is Some && r->Some_0@ == candidate(name@, n),
            None => r is None,
        },
        r is None <==> forall|i: int| 0 <= i < taken@.len() ==> #[trigger] taken@[i],
        taken@.len() > 0 && !taken@[0] ==> r is Some && r->Some_0@ == name@,
{
    proof {
        lemma_first_free(taken@);
    }
    let mut search = OutputName::new(name);
    let mut i: usize = 0;
    assert(taken@.take(0) =~= Seq::empty());
    while i < taken.len()
        invariant
            i <= taken@.len(),
            search.wf(),
            search.wanted() == name@,
            search.tried() == i,
            first_free(taken@.take(i as int)) is None,
        decreases taken@.len() - i,
    {
        assert(taken@.take(i + 1).drop_last() =~= taken@.take(i as int));
        assert(taken@.take(i + 1).last() == taken@[i as int]);
        if !taken[i] {
            proof {
                lemma_first_free_stays(taken@, i + 1);
                lemma_first_free(taken@);
            }
            return Some(search.candidate());
        }
        search.on_taken();
        i = i + 1;
    }
    assert(taken@.take(i as int) =~= taken@);
    None
}

/// What is free stays the first that is free, whatever follows.
proof fn lemma_first_free_stays(taken: Seq<bool>, k: int)
    requires
        0 <= k <= taken.len(),
        first_free(taken.take(k)) is Some,
    ensures
        first_free(taken) == first_free(taken.take(k)),
    decreases taken.len() - k,
{
    if k == taken.len() {
        assert(taken.take(k) =~= taken);
    } else {
        assert(taken.take(k + 1).drop_last() =~= taken.take(k));
        lemma_first_free_stays(taken, k + 1);
    }
}

/// The name that is used is one that is not taken, and all before it are; there is
/// none exactly where all are taken.
pub proof fn lemma_first_free(taken: Seq<bool>)
    ensures
        match first_free(taken) {
            Some(n) => n < taken.len() && !taken[n as int] && forall|i: int|
                0 <= i < n ==> #[trigger] taken[i],
            None => forall|i: int| 0 <= i < taken.len() ==> #[trigger] taken[i],
        },
    decreases taken.len(),
{
    if taken.len() > 0 {
        let rest = taken.drop_last();
        lemma_first_free(rest);
        assert forall|i: int| 0 <= i < rest.len() implies rest[i] == #[trigger] taken[i] by {}
        match first_free(rest) {
            Some(n) => {
                assert(rest[n as int] == taken[n as int]);
            },
            None => {},
        }
    }
}

/// The first name to try is the one that is wanted. The others are the same with
/// their number in round brackets, after a space, in front of the extension, which
/// starts at the last dot. A dot at the very start is none, nor are two dots alone.
/// Returned is the place of the number.
pub proof fn lemma_candidate_shape(name: Seq<char>, n: nat) -> (at: int)
    ensures
        candidate(name, 0) == name,
        0 <= at <= name.len(),
        n > 0 ==> candidate(name, n) == name.take(at) + seq![' ', '('] + text::decimal(n)
            + seq![')'] + name.skip(at),
        at < name.len() ==> at > 0 && name[at] == '.',
        forall|i: int| at < i < name.len() ==> #[trigger] name[i] != '.',
        at == name.len() && name != seq!['.', '.'] ==> forall|i: int|
            0 < i < name.len() ==> #[trigger] name[i] != '.',
        name == seq!['.', '.'] ==> at == name.len(),
{
    reveal_strlit(" (");
    reveal_strlit(")");
    lemma_last_dot(name);
    lemma_extension_inside(name);
    assert(" ("@ =~= seq![' ', '(']);
    assert(")"@ =~= seq![')']);
    match extension_at(name) {
        Some(at) => at,
        None => name.len() as int,
    }
}

/// After the last dot there is none.
proof fn lemma_last_dot(name: Seq<char>)
    ensures
        match last_dot(name) {
            Some(at) => 0 < at < name.len() && name[at] == '.' && forall|i: int|
                at < i < name.len() ==> #[trigger] name[i] != '.',
            None => forall|i: int| 0 < i < name.len() ==> #[trigger] name[i] != '.',
        },
    decreases name.len(),
{
    if name.len() > 1 && name.last() != '.' {
        let rest = name.drop_last();
        lemma_last_dot(rest);
        assert forall|i: int| 0 <= i < rest.len() implies rest[i] == #[trigger] name[i] by {}
        match last_dot(rest) {
            Some(at) => {
                assert(rest[at] == name[at]);
            },
            None => {},
        }
    }
}

/// No name is tried twice.
pub proof fn lemma_candidates_differ(name: Seq<char>, m: nat, n: nat)
    requires
        m != n,
    ensures
        candidate(name, m) != candidate(name, n),
{
    reveal_strlit(" (");
    reveal_strlit(")");
    let at = match extension_at(name) {
        Some(at) => at,
        None => name.len() as int,
    };
    lemma_extension_inside(name);
    if candidate(name, m) == candidate(name, n) {
        if m == 0 || n == 0 {
            let k = if m == 0 {
                n
            } else {
                m
            };
            cli::lemma_digits_read_back(k);
            assert(candidate(name, k).len() > name.len());
        } else {
            let a = candidate(name, m);
            let b = candidate(name, n);
            assert(a.subrange(at + 2, at + 2 + text::decimal(m).len()) =~= text::decimal(m));
            assert(b.subrange(at + 2, at + 2 + text::decimal(n).len()) =~= text::decimal(n));
            assert(a.len() == name.len() + 3 + text::decimal(m).len());
            assert(b.len() == name.len() + 3 + text::decimal(n).len());
            cli::lemma_decimal_is_injective(m, n);
        }
    }
}

/// The extension starts within the name.
proof fn lemma_extension_inside(name: Seq<char>)
    ensures
        extension_at(name) matches Some(at) ==> 0 < at < name.len(),
        last_dot(name) matches Some(at) ==> 0 < at < name.len(),
    decreases name.len(),
{
    if name.len() > 1 && name.last() != '.' {
        lemma_extension_inside(name.drop_last());
    }
}

} // verus!
