use vstd::prelude::*;
use vstd::string::{StrSliceExecFns, StringExecFns};
use vstd::utf8::char_u32_cast;

verus! {

/// Compares two strings character by character, by code point: negative,
/// zero or positive as `a` sorts before, equal to or after `b`.
pub open spec fn lex_cmp(a: Seq<char>, b: Seq<char>) -> int
    decreases a.len(),
{
    if a.len() == 0 {
        if b.len() == 0 {
            0
        } else {
            -1
        }
    } else if b.len() == 0 {
        1
    } else if (a[0] as u32) < (b[0] as u32) {
        -1
    } else if (a[0] as u32) > (b[0] as u32) {
        1
    } else {
        lex_cmp(a.drop_first(), b.drop_first())
    }
}

/// The entries with `(k, v)` put in key order, replacing the entry of an
/// equal key.
pub open spec fn insert_sorted(e: Seq<(Seq<char>, Seq<char>)>, k: Seq<char>, v: Seq<char>) -> Seq<
    (Seq<char>, Seq<char>),
>
    decreases e.len(),
{
    if e.len() == 0 {
        seq![(k, v)]
    } else if lex_cmp(k, e[0].0) == 0 {
        seq![(k, v)] + e.drop_first()
    } else if lex_cmp(k, e[0].0) < 0 {
        seq![(k, v)] + e
    } else {
        seq![e[0]] + insert_sorted(e.drop_first(), k, v)
    }
}

/// Each entry written as a backslash, the key, a backslash and the value.
pub open spec fn serialize_spec(e: Seq<(Seq<char>, Seq<char>)>) -> Seq<char>
    decreases e.len(),
{
    if e.len() == 0 {
        Seq::empty()
    } else {
        serialize_spec(e.drop_last()) + seq!['\\'] + e.last().0 + seq!['\\'] + e.last().1
    }
}

/// Keys strictly increase along the entries, and no key or value holds a
/// backslash.
pub open spec fn entries_ok(e: Seq<(Seq<char>, Seq<char>)>) -> bool {
    &&& forall|j: int| 0 <= j < e.len() - 1 ==> lex_cmp(#[trigger] e[j].0, e[j + 1].0) < 0
    &&& forall|j: int| 0 <= j < e.len() ==> !(#[trigger] e[j].0).contains('\\') && !e[j].1.contains('\\')
}

proof fn lemma_lex_flip(a: Seq<char>, b: Seq<char>)
    ensures
        lex_cmp(a, b) == -lex_cmp(b, a),
    decreases a.len(),
{
    if a.len() > 0 && b.len() > 0 && a[0] == b[0] {
        lemma_lex_flip(a.drop_first(), b.drop_first());
    } else if a.len() > 0 && b.len() > 0 {
        char_u32_cast(a[0], a[0] as u32);
        char_u32_cast(b[0], b[0] as u32);
    }
}

/// A set of key/value pairs, kept in key order.
pub struct Info {
    keys: Vec<(String, String)>,
}

fn cmp_str(a: &str, b: &str) -> (r: i8)
    ensures
        r as int == lex_cmp(a@, b@),
{
    let la = a.unicode_len();
    let lb = b.unicode_len();
    let mut i: usize = 0;
    proof {
        assert(a@.skip(0) =~= a@);
        assert(b@.skip(0) =~= b@);
    }
    while i < la && i < lb
        invariant
            la == a@.len(),
            lb == b@.len(),
            i <= la,
            i <= lb,
            lex_cmp(a@, b@) == lex_cmp(a@.skip(i as int), b@.skip(i as int)),
        decreases la - i,
    {
        let ca = a.get_char(i);
        let cb = b.get_char(i);
        proof {
            assert(a@.skip(i as int)[0] == ca);
            assert(b@.skip(i as int)[0] == cb);
        }
        if (ca as u32) < (cb as u32) {
            return -1;
        }
        if (ca as u32) > (cb as u32) {
            return 1;
        }
        proof {
            assert(a@.skip(i as int).drop_first() =~= a@.skip(i + 1));
            assert(b@.skip(i as int).drop_first() =~= b@.skip(i + 1));
        }
        i = i + 1;
    }
    if i < la {
        1
    } else if i < lb {
        -1
    } else {
        0
    }
}

proof fn lemma_lex_eq(a: Seq<char>, b: Seq<char>)
    ensures
        lex_cmp(a, b) == 0 ==> a == b,
    decreases a.len(),
{
    if a.len() > 0 && b.len() > 0 && (a[0] as u32) == (b[0] as u32) {
        char_u32_cast(a[0], a[0] as u32);
        char_u32_cast(b[0], b[0] as u32);
        lemma_lex_eq(a.drop_first(), b.drop_first());
        if lex_cmp(a, b) == 0 {
            assert(a =~= seq![a[0]] + a.drop_first());
            assert(b =~= seq![b[0]] + b.drop_first());
        }
    }
}

proof fn lemma_insert_at(e: Seq<(Seq<char>, Seq<char>)>, k: Seq<char>, v: Seq<char>, i: int)
    requires
        0 <= i <= e.len(),
        forall|j: int| 0 <= j < i ==> lex_cmp(k, #[trigger] e[j].0) > 0,
        i < e.len() ==> lex_cmp(k, e[i].0) <= 0,
    ensures
        insert_sorted(e, k, v) == if i < e.len() && lex_cmp(k, e[i].0) == 0 {
            e.update(i, (k, v))
        } else {
            e.insert(i, (k, v))
        },
    decreases i,
{
    if i == 0 {
        if e.len() > 0 && lex_cmp(k, e[0].0) == 0 {
            assert(seq![(k, v)] + e.drop_first() =~= e.update(0, (k, v)));
        } else {
            assert(seq![(k, v)] + e =~= e.insert(0, (k, v)));
        }
    } else {
        let t = e.drop_first();
        assert forall|j: int| 0 <= j < i - 1 implies lex_cmp(k, #[trigger] t[j].0) > 0 by {
            assert(t[j] == e[j + 1]);
        }
        lemma_insert_at(t, k, v, i - 1);
        assert(lex_cmp(k, e[0].0) > 0);
        if i < e.len() && lex_cmp(k, e[i].0) == 0 {
            assert(seq![e[0]] + t.update(i - 1, (k, v)) =~= e.update(i, (k, v)));
        } else {
            assert(seq![e[0]] + t.insert(i - 1, (k, v)) =~= e.insert(i, (k, v)));
        }
    }
}

impl Info {
    pub closed spec fn view(&self) -> Seq<(Seq<char>, Seq<char>)> {
        self.keys@.map_values(|p: (String, String)| (p.0@, p.1@))
    }

    pub open spec fn inv(&self) -> bool {
        entries_ok(self@)
    }

    pub fn new() -> (r: Info)
        ensures
            r@.len() == 0,
            r.inv(),
    {
        let r = Info { keys: Vec::new() };
        proof {
            assert(r@ =~= Seq::<(Seq<char>, Seq<char>)>::empty());
        }
        r
    }

    /// Sets the value of `key`, in key order; a key already present gets the
    /// new value.
    pub fn set_value_for_key(&mut self, key: &str, value: &str)
        requires
            old(self).inv(),
            !key@.contains('\\'),
            !value@.contains('\\'),
        ensures
            final(self).inv(),
            final(self)@ == insert_sorted(old(self)@, key@, value@),
    {
        let n = self.keys.len();
        let mut i: usize = 0;
        let mut c: i8 = 1;
        while i < n && c > 0
            invariant
                n == self.keys@.len(),
                i <= n,
                self@ == old(self)@,
                forall|j: int| 0 <= j < i ==> lex_cmp(key@, #[trigger] self@[j].0) > 0,
                c <= 0 ==> i < n && c as int == lex_cmp(key@, self@[i as int].0),
            decreases n - i + if c > 0 {
                1int
            } else {
                0int
            },
        {
            c = cmp_str(key, self.keys[i].0.as_str());
            if c > 0 {
                i = i + 1;
            }
        }
        proof {
            lemma_insert_at(self@, key@, value@, i as int);
        }
        let entry = (String::from_str(key), String::from_str(value));
        let ghost e = old(self)@;
        if c == 0 {
            self.keys.set(i, entry);
            proof {
                assert(self@ =~= e.update(i as int, (key@, value@)));
                assert forall|j: int| 0 <= j < self@.len() - 1 implies lex_cmp(
                    #[trigger] self@[j].0,
                    self@[j + 1].0,
                ) < 0 by {
                    lemma_lex_flip(key@, e[i as int].0);
                    lemma_lex_eq(key@, e[i as int].0);
                }
            }
        } else {
            self.keys.insert(i, entry);
            proof {
                let f = e.insert(i as int, (key@, value@));
                assert(self@ =~= f);
                assert forall|j: int| 0 <= j < f.len() - 1 implies lex_cmp(#[trigger] f[j].0, f[j + 1].0)
                    < 0 by {
                    if j == i - 1 {
                        lemma_lex_flip(key@, e[j].0);
                    } else if j == i {
                        assert(lex_cmp(key@, e[i as int].0) < 0);
                    } else if j < i {
                        assert(f[j] == e[j] && f[j + 1] == e[j + 1]);
                    } else {
                        assert(f[j] == e[j - 1] && f[j + 1] == e[j]);
                    }
                }
            }
        }
    }

    /// Writes each entry, in key order, as a backslash, the key, a backslash
    /// and the value.
    pub fn serialize(&self) -> (r: String)
        ensures
            r@ == serialize_spec(self@),
    {
        let mut result = String::new();
        let sep = "\\";
        proof {
            reveal_strlit("\\");
        }
        let mut i: usize = 0;
        while i < self.keys.len()
            invariant
                i <= self@.len(),
                self@.len() == self.keys@.len(),
                sep@ == seq!['\\'],
                result@ == serialize_spec(self@.subrange(0, i as int)),
            decreases self.keys@.len() - i,
        {
            result.append(sep);
            result.append(self.keys[i].0.as_str());
            result.append(sep);
            result.append(self.keys[i].1.as_str());
            proof {
                let e = self@.subrange(0, i + 1);
                assert(e.drop_last() =~= self@.subrange(0, i as int));
                assert(e.last() == self@[i as int]);
            }
            i = i + 1;
        }
        proof {
            assert(self@.subrange(0, self@.len() as int) =~= self@);
        }
        result
    }
}

} // verus!
