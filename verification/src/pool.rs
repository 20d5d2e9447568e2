//! The character pool: the working alphabet for one generation request.
//!
//! A pool is a collection of unique characters with stable insertion
//! order, so that a character can be addressed by its index for uniform
//! sampling.  It is backed by `indexmap::IndexSet`, whose behaviour the
//! contracts of the private wrappers below record; the pool's own methods
//! are verified against those contracts.

use vstd::prelude::*;

use crate::config::Config;

verus! {

/// The characters held by an `indexmap::IndexSet<char>`, in insertion
/// order, each exactly once.  This is the abstract contents of the set;
/// the wrappers below state how each operation of the set acts on it.
pub uninterp spec fn iset_elems(s: indexmap::IndexSet<char>) -> Seq<char>;

#[verifier::external_type_specification]
#[verifier::external_body]
#[verifier::reject_recursive_types(T)]
#[verifier::reject_recursive_types(S)]
pub struct ExIndexSet<T, S>(indexmap::IndexSet<T, S>);

/// Relies on indexmap::IndexSet::new: creates an empty set.
#[verifier::external_body]
fn iset_new() -> (r: indexmap::IndexSet<char>)
    ensures
        iset_elems(r) == Seq::<char>::empty(),
{
    indexmap::IndexSet::new()
}

/// Relies on indexmap::IndexSet::len: the number of elements in the set.
#[verifier::external_body]
fn iset_len(s: &indexmap::IndexSet<char>) -> (r: usize)
    ensures
        r == iset_elems(*s).len(),
{
    s.len()
}

/// Relies on indexmap::IndexSet::insert: a value already present leaves
/// the set unchanged (and its insertion order unaltered); a new value is
/// appended at the end.  Returns whether the value was new.
#[verifier::external_body]
fn iset_insert(s: &mut indexmap::IndexSet<char>, c: char) -> (r: bool)
    ensures
        iset_elems(*old(s)).contains(c) ==> iset_elems(*final(s)) == iset_elems(*old(s)),
        !iset_elems(*old(s)).contains(c) ==> iset_elems(*final(s)) == iset_elems(*old(s)).push(
            c,
        ),
        r == !iset_elems(*old(s)).contains(c),
{
    s.insert(c)
}

/// Relies on indexmap::IndexSet::contains: membership.
#[verifier::external_body]
fn iset_contains(s: &indexmap::IndexSet<char>, c: char) -> (r: bool)
    ensures
        r == iset_elems(*s).contains(c),
{
    s.contains(&c)
}

/// Relies on indexmap::IndexSet::get_index: the element at the given
/// position in insertion order, if the position is in range.
#[verifier::external_body]
fn iset_get(s: &indexmap::IndexSet<char>, index: usize) -> (r: Option<char>)
    ensures
        index < iset_elems(*s).len() ==> r == Some(iset_elems(*s)[index as int]),
        index >= iset_elems(*s).len() ==> r is None,
{
    match s.get_index(index) {
        Some(c) => Some(*c),
        None => None,
    }
}

/// Relies on indexmap::IndexSet::is_superset: true exactly when every
/// character of `elements` is in the set.
#[verifier::external_body]
fn iset_is_superset_of_str(s: &indexmap::IndexSet<char>, elements: &str) -> (r: bool)
    ensures
        r == (forall|i: int|
            0 <= i < elements@.len() ==> iset_elems(*s).contains(elements@[i])),
{
    let other: indexmap::IndexSet<char> = elements.chars().collect();
    s.is_superset(&other)
}

/// Relies on str::chars: yields the characters of the string in order.
#[verifier::external_body]
fn chars_vec(s: &str) -> (v: Vec<char>)
    ensures
        v@ == s@,
{
    s.chars().collect()
}

/// `s` with `c` appended, unless `c` is already present: one step of
/// union-merging a character into a pool.
pub open spec fn with_char(s: Seq<char>, c: char) -> Seq<char> {
    if s.contains(c) {
        s
    } else {
        s.push(c)
    }
}

/// `s` after union-merging every character of `t` in order: characters
/// already present are no-ops, new characters are appended first-seen
/// first.
pub open spec fn extended(s: Seq<char>, t: Seq<char>) -> Seq<char>
    decreases t.len(),
{
    if t.len() == 0 {
        s
    } else {
        extended(with_char(s, t[0]), t.drop_first())
    }
}

/// Merging adds exactly the characters of `t`: membership in the merged
/// pool is membership in either source.
pub proof fn lemma_extended_membership(s: Seq<char>, t: Seq<char>)
    ensures
        forall|c: char| extended(s, t).contains(c) <==> s.contains(c) || t.contains(c),
    decreases t.len(),
{
    if t.len() == 0 {
        assert(forall|c: char| !t.contains(c));
    } else {
        lemma_extended_membership(with_char(s, t[0]), t.drop_first());
        assert forall|c: char| with_char(s, t[0]).contains(c) <==> s.contains(c) || c == t[0] by {
            if !s.contains(t[0]) {
                assert(s.push(t[0])[s.len() as int] == t[0]);
                if s.contains(c) {
                    let i = choose|i: int| 0 <= i < s.len() && s[i] == c;
                    assert(s.push(t[0])[i] == c);
                }
                if s.push(t[0]).contains(c) {
                    let i = choose|i: int| 0 <= i < s.push(t[0]).len() && s.push(t[0])[i] == c;
                    if i < s.len() {
                        assert(s[i] == c);
                    }
                }
            }
        }
        assert forall|c: char| t.contains(c) <==> c == t[0] || t.drop_first().contains(c) by {
            if t.contains(c) {
                let i = choose|i: int| 0 <= i < t.len() && t[i] == c;
                if i > 0 {
                    assert(t.drop_first()[i - 1] == c);
                }
            }
            if t.drop_first().contains(c) {
                let i = choose|i: int| 0 <= i < t.drop_first().len() && t.drop_first()[i] == c;
                assert(t[i + 1] == c);
            }
        }
    }
}

/// Merging never introduces a duplicate: a pool of unique characters
/// stays unique.
pub proof fn lemma_extended_no_duplicates(s: Seq<char>, t: Seq<char>)
    requires
        s.no_duplicates(),
    ensures
        extended(s, t).no_duplicates(),
    decreases t.len(),
{
    if t.len() != 0 {
        assert(with_char(s, t[0]).no_duplicates()) by {
            if !s.contains(t[0]) {
                assert(forall|i: int|
                    0 <= i < s.len() ==> s.push(t[0])[i] == s[i]);
                assert(s.push(t[0])[s.len() as int] == t[0]);
            }
        }
        lemma_extended_no_duplicates(with_char(s, t[0]), t.drop_first());
    }
}

/// A set of unique characters with stable insertion order: the working
/// alphabet that passwords are drawn from.
#[derive(Debug)]
pub struct Pool {
    set: indexmap::IndexSet<char>,
}

impl View for Pool {
    type V = Seq<char>;

    closed spec fn view(&self) -> Seq<char> {
        iset_elems(self.set)
    }
}

impl Pool {
    /// Create a new empty pool.
    pub fn new() -> (r: Pool)
        ensures
            r@ == Seq::<char>::empty(),
    {
        Pool { set: iset_new() }
    }

    /// Create a new pool holding the characters of `s`, first-seen order,
    /// duplicates collapsed.
    pub fn from_string(s: String) -> (r: Pool)
        ensures
            r@ == extended(Seq::<char>::empty(), s@),
            r@.no_duplicates(),
    {
        proof {
            lemma_extended_no_duplicates(Seq::<char>::empty(), s@);
        }
        let mut pool = Pool::new();
        pool.extend_from_string(s);
        pool
    }

    /// The number of distinct characters in the pool.
    pub fn len(&self) -> (r: usize)
        ensures
            r == self@.len(),
    {
        iset_len(&self.set)
    }

    /// Union-merge every character of `s` into the pool: characters
    /// already present are no-ops, new ones are appended in first-seen
    /// order.
    pub fn extend_from_string(&mut self, s: String)
        ensures
            final(self)@ == extended(old(self)@, s@),
    {
        let chars = chars_vec(s.as_str());
        let ghost start = self@;
        let mut i: usize = 0;
        while i < chars.len()
            invariant
                i <= chars.len(),
                chars@ == s@,
                self@ == extended(start, s@.take(i as int)),
            decreases chars.len() - i,
        {
            proof {
                lemma_extended_one_more(start, s@, i as int);
            }
            iset_insert(&mut self.set, chars[i]);
            i = i + 1;
        }
        proof {
            assert(s@.take(s@.len() as int) =~= s@);
        }
    }

    /// Whether the pool holds no characters.
    pub fn is_empty(&self) -> (r: bool)
        ensures
            r == (self@.len() == 0),
    {
        self.len() == 0
    }

    /// The character at position `index` in insertion order, if any.
    pub fn get(&self, index: usize) -> (r: Option<char>)
        ensures
            index < self@.len() ==> r == Some(self@[index as int]),
            index >= self@.len() ==> r is None,
    {
        iset_get(&self.set, index)
    }

    /// Whether the pool holds `element`.
    pub fn contains(&self, element: char) -> (r: bool)
        ensures
            r == self@.contains(element),
    {
        iset_contains(&self.set, element)
    }

    /// Whether the pool holds every character of `elements`.
    pub fn contains_all(&self, elements: String) -> (r: bool)
        ensures
            r == (forall|i: int| 0 <= i < elements@.len() ==> self@.contains(elements@[i])),
    {
        iset_is_superset_of_str(&self.set, elements.as_str())
    }
}

/// Merging one more character of `t` extends the merge of the first `i`:
/// the step that carries the merging loop's invariant.
proof fn lemma_extended_one_more(s: Seq<char>, t: Seq<char>, i: int)
    requires
        0 <= i < t.len(),
    ensures
        extended(s, t.take(i + 1)) == with_char(extended(s, t.take(i)), t[i]),
    decreases i,
{
    reveal_with_fuel(extended, 3);
    if i == 0 {
        assert(t.take(0).len() == 0);
        assert(t.take(1)[0] == t[0]);
        assert(t.take(1).drop_first().len() == 0);
    } else {
        lemma_extended_one_more(with_char(s, t[0]), t.drop_first(), i - 1);
        assert(t.take(i + 1)[0] == t[0]);
        assert(t.take(i + 1).drop_first() =~= t.drop_first().take(i));
        assert(t.take(i)[0] == t[0]);
        assert(t.take(i).drop_first() =~= t.drop_first().take(i - 1));
        assert(t.drop_first()[i - 1] == t[i]);
    }
}

/// Whether `c` belongs to the alphabet selected by the class flags: with
/// at least one flag set, the union of the selected classes; with none
/// set, the union of exactly the uppercase, lowercase and digits classes.
pub open spec fn pool_source_contains(
    config: Config,
    uppercase: bool,
    lowercase: bool,
    digits: bool,
    symbols: bool,
    others: bool,
    c: char,
) -> bool {
    if uppercase || lowercase || digits || symbols || others {
        (uppercase && config.uppercase@.contains(c)) || (lowercase && config.lowercase@.contains(
            c,
        )) || (digits && config.digits@.contains(c)) || (symbols && config.symbols@.contains(c))
            || (others && config.others@.contains(c))
    } else {
        config.uppercase@.contains(c) || config.lowercase@.contains(c)
            || config.digits@.contains(c)
    }
}

/// The characters of the assembled pool, in order: the configured string
/// of every selected class union-merged into an empty pool, in the fixed
/// order uppercase, lowercase, digits, symbols, others; with no class
/// selected, the uppercase, lowercase and digits classes.
pub open spec fn assembled_chars(
    config: Config,
    uppercase: bool,
    lowercase: bool,
    digits: bool,
    symbols: bool,
    others: bool,
) -> Seq<char> {
    if uppercase || lowercase || digits || symbols || others {
        let s0 = Seq::<char>::empty();
        let s1 = if uppercase {
            extended(s0, config.uppercase@)
        } else {
            s0
        };
        let s2 = if lowercase {
            extended(s1, config.lowercase@)
        } else {
            s1
        };
        let s3 = if digits {
            extended(s2, config.digits@)
        } else {
            s2
        };
        let s4 = if symbols {
            extended(s3, config.symbols@)
        } else {
            s3
        };
        if others {
            extended(s4, config.others@)
        } else {
            s4
        }
    } else {
        extended(
            extended(extended(Seq::<char>::empty(), config.uppercase@), config.lowercase@),
            config.digits@,
        )
    }
}

/// Assemble the pool for one generation request: merge the configured
/// string of every selected character class, in the fixed order
/// uppercase, lowercase, digits, symbols, others; with no class selected,
/// fall back to the union of the uppercase, lowercase and digits classes.
pub fn assemble_pool(
    config: &Config,
    uppercase: bool,
    lowercase: bool,
    digits: bool,
    symbols: bool,
    others: bool,
) -> (r: Pool)
    ensures
        r@ == assembled_chars(*config, uppercase, lowercase, digits, symbols, others),
        forall|c: char|
            r@.contains(c) <==> pool_source_contains(
                *config,
                uppercase,
                lowercase,
                digits,
                symbols,
                others,
                c,
            ),
        r@.no_duplicates(),
{
    let mut pool = Pool::new();
    let ghost e = Seq::<char>::empty();
    proof {
        assert(forall|c: char| !e.contains(c));
    }
    if uppercase || lowercase || digits || symbols || others {
        if uppercase {
            let ghost before = pool@;
            pool.extend_from_string(config.uppercase().to_owned());
            proof {
                lemma_extended_membership(before, config.uppercase@);
                lemma_extended_no_duplicates(before, config.uppercase@);
            }
        }
        if lowercase {
            let ghost before = pool@;
            pool.extend_from_string(config.lowercase().to_owned());
            proof {
                lemma_extended_membership(before, config.lowercase@);
                lemma_extended_no_duplicates(before, config.lowercase@);
            }
        }
        if digits {
            let ghost before = pool@;
            pool.extend_from_string(config.digits().to_owned());
            proof {
                lemma_extended_membership(before, config.digits@);
                lemma_extended_no_duplicates(before, config.digits@);
            }
        }
        if symbols {
            let ghost before = pool@;
            pool.extend_from_string(config.symbols().to_owned());
            proof {
                lemma_extended_membership(before, config.symbols@);
                lemma_extended_no_duplicates(before, config.symbols@);
            }
        }
        if others {
            let ghost before = pool@;
            pool.extend_from_string(config.others().to_owned());
            proof {
                lemma_extended_membership(before, config.others@);
                lemma_extended_no_duplicates(before, config.others@);
            }
        }
    } else {
        let ghost b0 = pool@;
        pool.extend_from_string(config.uppercase().to_owned());
        proof {
            lemma_extended_membership(b0, config.uppercase@);
            lemma_extended_no_duplicates(b0, config.uppercase@);
        }
        let ghost b1 = pool@;
        pool.extend_from_string(config.lowercase().to_owned());
        proof {
            lemma_extended_membership(b1, config.lowercase@);
            lemma_extended_no_duplicates(b1, config.lowercase@);
        }
        let ghost b2 = pool@;
        pool.extend_from_string(config.digits().to_owned());
        proof {
            lemma_extended_membership(b2, config.digits@);
            lemma_extended_no_duplicates(b2, config.digits@);
        }
    }
    pool
}

} // verus!
