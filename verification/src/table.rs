use vstd::prelude::*;

use lasso::Key;

verus! {

/// A compact symbol: a nonzero 32-bit handle into one interning table.
/// Two symbols are equal exactly when their handles are equal, and symbol
/// order is handle-numeric order — declaration order, not lexical order of
/// the strings.
#[derive(Clone, Copy, PartialEq, Eq, Structural, Hash, PartialOrd, Ord, Debug)]
pub struct Symbol {
    handle: u32,
}

impl Symbol {
    /// The numeric handle a symbol wraps.
    pub closed spec fn spec_handle(self) -> u32 {
        self.handle
    }

    /// A symbol's handle is never zero.
    pub open spec fn wf(self) -> bool {
        self.spec_handle() >= 1
    }

    /// Wraps a raw handle. The caller guarantees the value came from the
    /// matching table's declaration order; only internment hands such
    /// values out.
    pub fn from_raw(h: u32) -> (s: Symbol)
        requires
            h >= 1,
        ensures
            s.spec_handle() == h,
            s.wf(),
    {
        Symbol { handle: h }
    }

    /// The raw handle.
    pub fn raw(&self) -> (h: u32)
        ensures
            h == self.spec_handle(),
    {
        self.handle
    }
}

/// A bidirectional string-to-handle interning table, backed by a
/// concurrent interner. Handle `k` names the `k`-th string ever interned,
/// counting from one; once interned, a string is never removed or rebound.
#[verifier::external_body]
pub struct Table {
    rodeo: lasso::ThreadedRodeo,
}

/// The strings a table holds, in handle order: handle `k` belongs to the
/// string at index `k - 1`.
pub uninterp spec fn table_strings(t: Table) -> Seq<Seq<char>>;

/// Pairwise distinct strings.
pub open spec fn distinct_strs(v: Seq<Seq<char>>) -> bool {
    forall|i: int, j: int| 0 <= i < j < v.len() ==> v[i] != v[j]
}

/// Least index of `s` in `v`, or -1 when `s` does not occur.
pub open spec fn str_index(v: Seq<Seq<char>>, s: Seq<char>) -> int
    decreases v.len(),
{
    if v.len() == 0 {
        -1
    } else if v[0] == s {
        0
    } else {
        let r = str_index(v.drop_first(), s);
        if r < 0 {
            -1
        } else {
            r + 1
        }
    }
}

pub proof fn lemma_str_index(v: Seq<Seq<char>>, s: Seq<char>)
    ensures
        str_index(v, s) >= 0 ==> str_index(v, s) < v.len() && v[str_index(v, s)] == s && (
        forall|j: int| 0 <= j < str_index(v, s) ==> v[j] != s),
        str_index(v, s) < 0 ==> (forall|j: int| 0 <= j < v.len() ==> v[j] != s),
    decreases v.len(),
{
    if v.len() > 0 && v[0] != s {
        lemma_str_index(v.drop_first(), s);
        let r = str_index(v.drop_first(), s);
        if r >= 0 {
            assert(v[r + 1] == v.drop_first()[r]);
            assert forall|j: int| 0 <= j < str_index(v, s) implies v[j] != s by {
                if j > 0 {
                    assert(v.drop_first()[j - 1] == v[j]);
                }
            }
        } else {
            assert forall|j: int| 0 <= j < v.len() implies v[j] != s by {
                if j > 0 {
                    assert(v.drop_first()[j - 1] == v[j]);
                }
            }
        }
    }
}

pub proof fn lemma_str_index_push_absent(v: Seq<Seq<char>>, s: Seq<char>)
    requires
        forall|j: int| 0 <= j < v.len() ==> v[j] != s,
    ensures
        str_index(v.push(s), s) == v.len(),
    decreases v.len(),
{
    if v.len() == 0 {
        assert(v.push(s)[0] == s);
    } else {
        assert(v.push(s)[0] == v[0]);
        lemma_str_index_push_absent(v.drop_first(), s);
        assert(v.push(s).drop_first() =~= v.drop_first().push(s));
    }
}

/// The abstract internment step: a known string keeps its handle and the
/// table; a new string is appended and receives the next handle.
pub open spec fn intern_spec(v: Seq<Seq<char>>, s: Seq<char>) -> (Seq<Seq<char>>, int) {
    let i = str_index(v, s);
    if i >= 0 {
        (v, i + 1)
    } else {
        (v.push(s), v.len() as int + 1)
    }
}

/// The views of a vector of strings.
pub open spec fn views_of(names: Seq<String>) -> Seq<Seq<char>> {
    Seq::new(names.len(), |i: int| names[i]@)
}

impl Table {
    /// The strings this table holds, in handle order.
    pub open spec fn strings(self) -> Seq<Seq<char>> {
        table_strings(self)
    }

    /// Every table this module builds keeps its strings pairwise distinct.
    pub open spec fn wf(self) -> bool {
        distinct_strs(table_strings(self))
    }

    /// Relies on lasso::ThreadedRodeo::new (lasso 0.7): a fresh interner
    /// holds no strings.
    #[verifier::external_body]
    fn empty() -> (t: Table)
        ensures
            table_strings(t) == Seq::<Seq<char>>::empty(),
    {
        Table { rodeo: lasso::ThreadedRodeo::new() }
    }

    /// Relies on lasso::ThreadedRodeo::get_or_intern and lasso::Spur
    /// (lasso 0.7): keys are assigned in internment order, a `Spur` wraps
    /// its index plus one, and a string already present keeps its key with
    /// the table unchanged. The length bound keeps the key space from
    /// running out, on which the call would abort.
    #[verifier::external_body]
    fn raw_intern(&mut self, s: &str) -> (h: u32)
        requires
            distinct_strs(table_strings(*old(self))),
            table_strings(*old(self)).len() < 0xFFFF_FFFFu32,
        ensures
            ({
                let pre = table_strings(*old(self));
                let post = table_strings(*final(self));
                let i = str_index(pre, s@);
                if i >= 0 {
                    post == pre && h as int == i + 1
                } else {
                    post == pre.push(s@) && h as int == pre.len() + 1
                }
            }),
    {
        self.rodeo.get_or_intern(s).into_inner().get()
    }

    /// Relies on lasso::ThreadedRodeo::resolve and lasso::Spur (lasso
    /// 0.7): the key built from a handle the table has assigned resolves
    /// to the string interned when that handle was assigned.
    #[verifier::external_body]
    fn raw_resolve(&self, h: u32) -> (r: String)
        requires
            1 <= h as int,
            h as int <= table_strings(*self).len(),
        ensures
            r@ == table_strings(*self)[h as int - 1],
    {
        let key = lasso::Spur::try_from_usize((h - 1) as usize).unwrap();
        self.rodeo.resolve(&key).to_string()
    }

    /// Relies on lasso::ThreadedRodeo::len (lasso 0.7): the number of
    /// interned strings.
    #[verifier::external_body]
    fn raw_len(&self) -> (n: usize)
        ensures
            n as int == table_strings(*self).len(),
    {
        self.rodeo.len()
    }

    /// A table pre-registered with the declared names, in declaration
    /// order: the first name receives handle 1, the second handle 2, and
    /// so on. This alignment is what lets handles assigned at generation
    /// time line up with the runtime table.
    pub fn new(names: &Vec<String>) -> (t: Table)
        requires
            distinct_strs(views_of(names@)),
            names@.len() < 0xFFFF_FFFFu32,
        ensures
            t.strings() == views_of(names@),
            t.wf(),
    {
        let ghost all = views_of(names@);
        let mut t = Table::empty();
        proof {
            assert(table_strings(t) =~= all.take(0));
        }
        let mut i: usize = 0;
        while i < names.len()
            invariant
                i <= names.len(),
                all == views_of(names@),
                distinct_strs(all),
                names@.len() < 0xFFFF_FFFFu32,
                table_strings(t) == all.take(i as int),
            decreases names.len() - i,
        {
            proof {
                assert(distinct_strs(table_strings(t))) by {
                    assert(forall|a: int, b: int|
                        0 <= a < b < i ==> all.take(i as int)[a] == all[a] && all.take(i as int)[b]
                            == all[b]);
                }
                lemma_str_index(table_strings(t), names@[i as int]@);
                if str_index(table_strings(t), names@[i as int]@) >= 0 {
                    let ix = str_index(table_strings(t), names@[i as int]@);
                    assert(all.take(i as int)[ix] == all[ix]);
                    assert(all[ix] == all[i as int]);
                    assert(false);
                }
            }
            let h = t.raw_intern(names[i].as_str());
            proof {
                assert(table_strings(t) =~= all.take(i + 1));
            }
            i += 1;
        }
        proof {
            assert(all.take(names@.len() as int) =~= all);
        }
        t
    }

    /// Internment: a string the table knows answers with its existing
    /// handle and the table is unchanged; a new string is appended and
    /// receives the next handle.
    pub fn intern(&mut self, s: &str) -> (sym: Symbol)
        requires
            old(self).wf(),
            old(self).strings().len() < 0xFFFF_FFFFu32,
        ensures
            final(self).wf(),
            final(self).strings() == intern_spec(old(self).strings(), s@).0,
            sym.spec_handle() as int == intern_spec(old(self).strings(), s@).1,
            sym.wf(),
    {
        proof {
            lemma_str_index(table_strings(*self), s@);
        }
        let h = self.raw_intern(s);
        proof {
            let pre = table_strings(*old(self));
            if str_index(pre, s@) < 0 {
                assert(distinct_strs(pre.push(s@))) by {
                    assert(forall|a: int|
                        0 <= a < pre.len() ==> pre.push(s@)[a] == pre[a]);
                    assert(pre.push(s@)[pre.len() as int] == s@);
                }
            }
        }
        Symbol { handle: h }
    }

    /// Resolution: exactly the string that was interned when this handle
    /// was assigned. A handle the table never assigned is ruled out by the
    /// caller's obligation.
    pub fn resolve(&self, sym: Symbol) -> (r: String)
        requires
            1 <= sym.spec_handle() as int,
            sym.spec_handle() as int <= self.strings().len(),
        ensures
            r@ == self.strings()[sym.spec_handle() as int - 1],
    {
        self.raw_resolve(sym.handle)
    }

    /// How many strings the table holds.
    pub fn len(&self) -> (n: usize)
        ensures
            n as int == self.strings().len(),
    {
        self.raw_len()
    }
}

/// Round trip: interning a string and resolving the returned handle gives
/// exactly that string back, on any table.
pub proof fn lemma_intern_resolve_round_trip(v: Seq<Seq<char>>, s: Seq<char>)
    ensures
        ({
            let (v2, h) = intern_spec(v, s);
            1 <= h && h <= v2.len() && v2[h - 1] == s
        }),
{
    lemma_str_index(v, s);
}

/// Idempotence: interning the same string a second time returns the same
/// handle and leaves the table unchanged.
pub proof fn lemma_intern_idempotent(v: Seq<Seq<char>>, s: Seq<char>)
    ensures
        ({
            let (v2, h) = intern_spec(v, s);
            intern_spec(v2, s) == (v2, h)
        }),
{
    lemma_str_index(v, s);
    if str_index(v, s) < 0 {
        lemma_str_index_push_absent(v, s);
        lemma_str_index(v.push(s), s);
    }
}

/// Handles follow declaration order: in a table holding distinct names,
/// the name at index `i` interns to handle `i + 1`, and the table does not
/// change.
pub proof fn lemma_declaration_order(v: Seq<Seq<char>>, i: int)
    requires
        distinct_strs(v),
        0 <= i < v.len(),
    ensures
        intern_spec(v, v[i]) == (v, i + 1),
{
    lemma_str_index(v, v[i]);
    let ix = str_index(v, v[i]);
    if ix < 0 {
        assert(v[i] != v[i]);
    }
    assert(v[ix] == v[i]);
    if ix < i {
        assert(false);
    }
    if ix > i {
        assert(v[i] != v[i]);
    }
}

} // verus!
