//! A table of configuration options and their values, read from lines of
//! the form `option = value`.
//!
//! Keys are strings, and vstd specifies `std`'s hash maps and sets only for
//! keys it knows to hash consistently (integers and `bool`); so the table is
//! held in vectors, with the uniqueness of keys as its invariant.
use vstd::prelude::*;
use crate::assoc::{keys_unique, assoc_has, assoc_pos, assoc_map, lemma_assoc_index,
    lemma_assoc_insert, lemma_assoc_update, lemma_assoc_has};
use crate::matcher::{matcher, glob_matches};
use crate::text::{split_on, split_char, trimmed, trim_str};
use crate::strvec::strs_view;

verus! {

/// The table after setting `k` to `v`: the pair of `k` is rewritten where
/// it is, or a new pair is added at the end.
pub open spec fn put(s: Seq<(Seq<char>, Seq<char>)>, k: Seq<char>, v: Seq<char>) -> Seq<
    (Seq<char>, Seq<char>),
> {
    if assoc_has(s, k) {
        s.update(assoc_pos(s, k), (k, v))
    } else {
        s.push((k, v))
    }
}

/// The option and value of a line `option = value`, each trimmed, if the
/// line holds exactly one `=`.
pub open spec fn conf_line(line: Seq<char>) -> Option<(Seq<char>, Seq<char>)> {
    let p = split_on(line, '=');
    if p.len() == 2 {
        Some((trimmed(p[0]), trimmed(p[1])))
    } else {
        None
    }
}

/// The table after reading the lines in turn, or `None` when one of them is
/// not of the form `option = value`.
pub open spec fn read_lines(
    s: Seq<(Seq<char>, Seq<char>)>,
    lines: Seq<Seq<char>>,
) -> Option<Seq<(Seq<char>, Seq<char>)>>
    decreases lines.len(),
{
    if lines.len() == 0 {
        Some(s)
    } else {
        match read_lines(s, lines.drop_last()) {
            Some(t) => match conf_line(lines.last()) {
                Some(kv) => Some(put(t, kv.0, kv.1)),
                None => None,
            },
            None => None,
        }
    }
}

/// The lines `option: value` of the options that match `pattern`, in
/// order.
pub open spec fn matching_lines(s: Seq<(Seq<char>, Seq<char>)>, pattern: Seq<char>) -> Seq<
    Seq<char>,
>
    decreases s.len(),
{
    if s.len() == 0 {
        Seq::empty()
    } else {
        let pre = matching_lines(s.drop_last(), pattern);
        if glob_matches(s.last().0, pattern) {
            pre.push(s.last().0 + seq![':', ' '] + s.last().1)
        } else {
            pre
        }
    }
}

/// Options and their values, each option once.
pub struct ConfTable {
    pairs: Vec<(String, String)>,
}

impl View for ConfTable {
    type V = Seq<(Seq<char>, Seq<char>)>;

    closed spec fn view(&self) -> Seq<(Seq<char>, Seq<char>)> {
        self.pairs@.map_values(|p: (String, String)| (p.0@, p.1@))
    }
}

impl ConfTable {
    /// No option occurs twice.
    pub closed spec fn wf(&self) -> bool {
        keys_unique(self@)
    }

    /// An empty table.
    pub fn new() -> (r: ConfTable)
        ensures
            r.wf(),
            r@ == Seq::<(Seq<char>, Seq<char>)>::empty(),
    {
        let r = ConfTable { pairs: Vec::new() };
        assert(r@ =~= Seq::<(Seq<char>, Seq<char>)>::empty());
        r
    }

    /// The position of `k`.
    fn position(&self, k: &str) -> (r: Option<usize>)
        requires
            self.wf(),
        ensures
            match r {
                Some(i) => i < self@.len() && assoc_has(self@, k@) && assoc_pos(self@, k@) == i,
                None => !assoc_has(self@, k@),
            },
    {
        let key = String::from_str(k);
        let mut i: usize = 0;
        while i < self.pairs.len()
            invariant
                self.wf(),
                key@ == k@,
                i <= self.pairs@.len(),
                forall|j: int| 0 <= j < i ==> self@[j].0 != k@,
            decreases self.pairs.len() - i,
        {
            if self.pairs[i].0 == key {
                proof {
                    lemma_assoc_index(self@, i as int);
                }
                return Some(i);
            }
            i = i + 1;
        }
        proof {
            if assoc_has(self@, k@) {
                let q = choose|q: int| 0 <= q < self@.len() && (#[trigger] self@[q]).0 == k@;
                assert(self@[q].0 == k@);
            }
        }
        None
    }

    /// The value of `k`, if the table has it.
    pub fn get(&self, k: &str) -> (r: Option<&String>)
        requires
            self.wf(),
        ensures
            match r {
                Some(v) => assoc_map(self@).contains_key(k@) && v@ == assoc_map(self@)[k@],
                None => !assoc_map(self@).contains_key(k@),
            },
    {
        proof {
            lemma_assoc_has(self@, k@);
        }
        match self.position(k) {
            Some(i) => {
                proof {
                    lemma_assoc_index(self@, i as int);
                }
                Some(&self.pairs[i].1)
            },
            None => None,
        }
    }

    /// Sets `k` to `v` (see `put`).
    pub fn insert(&mut self, k: &str, v: &str)
        requires
            old(self).wf(),
        ensures
            final(self).wf(),
            final(self)@ == put(old(self)@, k@, v@),
    {
        let ghost s0 = self@;
        match self.position(k) {
            Some(i) => {
                self.pairs.set(i, (String::from_str(k), String::from_str(v)));
                proof {
                    assert(self@ =~= s0.update(i as int, (k@, v@)));
                    lemma_assoc_update(s0, i as int, (k@, v@));
                }
            },
            None => {
                self.pairs.push((String::from_str(k), String::from_str(v)));
                proof {
                    assert(self@ =~= s0.push((k@, v@)));
                    assert(s0.insert(s0.len() as int, (k@, v@)) =~= s0.push((k@, v@)));
                    lemma_assoc_insert(s0, s0.len() as int, (k@, v@));
                }
            },
        }
    }

    /// Reads the lines `option = value` in turn into the table (see
    /// `read_lines`); fails with `Invalid format config file` on a line of
    /// another form.
    pub fn read(&mut self, lines: &Vec<&str>) -> (r: Result<(), String>)
        requires
            old(self).wf(),
        ensures
            final(self).wf(),
            match r {
                Ok(_) => read_lines(old(self)@, strs_view(lines@)) == Some(final(self)@),
                Err(e) => read_lines(old(self)@, strs_view(lines@)) is None && e@
                    == "Invalid format config file"@,
            },
    {
        let ghost lv = strs_view(lines@);
        let mut i: usize = 0;
        proof {
            assert(lv.take(0) =~= Seq::<Seq<char>>::empty());
        }
        while i < lines.len()
            invariant
                self.wf(),
                i <= lines@.len(),
                lv == strs_view(lines@),
                read_lines(old(self)@, lv.take(i as int)) == Some(self@),
            decreases lines.len() - i,
        {
            proof {
                assert(lv.take(i + 1).drop_last() =~= lv.take(i as int));
                assert(lv.take(i + 1).last() == lines@[i as int]@);
            }
            let parts = split_char(lines[i], '=');
            if parts.len() != 2 {
                proof {
                    lemma_read_none(old(self)@, lv, i as int);
                }
                return Err(String::from_str("Invalid format config file"));
            }
            let key = trim_str(parts[0]);
            let value = trim_str(parts[1]);
            self.insert(key, value);
            i = i + 1;
        }
        proof {
            assert(lv.take(i as int) =~= lv);
        }
        Ok(())
    }

    /// The lines `option: value` of the options that match `pattern` (see
    /// `matching_lines`).
    pub fn matching(&self, pattern: &str) -> (r: Vec<String>)
        ensures
            r@.len() == matching_lines(self@, pattern@).len(),
            forall|i: int|
                0 <= i < r@.len() ==> (#[trigger] r@[i])@ == matching_lines(self@, pattern@)[i],
    {
        proof {
            reveal_strlit(": ");
        }
        let ghost s = self@;
        let mut r: Vec<String> = Vec::new();
        let mut i: usize = 0;
        proof {
            assert(s.take(0) =~= Seq::<(Seq<char>, Seq<char>)>::empty());
            assert(": "@ =~= seq![':', ' ']);
        }
        while i < self.pairs.len()
            invariant
                s == self@,
                ": "@ == seq![':', ' '],
                i <= self.pairs@.len(),
                r@.len() == matching_lines(s.take(i as int), pattern@).len(),
                forall|q: int|
                    0 <= q < r@.len() ==> (#[trigger] r@[q])@ == matching_lines(
                        s.take(i as int),
                        pattern@,
                    )[q],
            decreases self.pairs.len() - i,
        {
            proof {
                assert(s.take(i + 1).drop_last() =~= s.take(i as int));
                assert(s.take(i + 1).last() == (self.pairs@[i as int].0@, self.pairs@[i as int].1@));
            }
            if matcher(self.pairs[i].0.as_str(), pattern) {
                let mut line = self.pairs[i].0.clone();
                line.append(": ");
                line.append(self.pairs[i].1.as_str());
                r.push(line);
            }
            i = i + 1;
        }
        proof {
            assert(s.take(i as int) =~= s);
        }
        r
    }
}

/// A line that is not of the form `option = value` makes reading fail,
/// whatever follows.
proof fn lemma_read_none(s: Seq<(Seq<char>, Seq<char>)>, lv: Seq<Seq<char>>, i: int)
    requires
        0 <= i < lv.len(),
        conf_line(lv[i]) is None,
    ensures
        read_lines(s, lv) is None,
    decreases lv.len(),
{
    if i < lv.len() - 1 {
        assert(lv.drop_last()[i] == lv[i]);
        lemma_read_none(s, lv.drop_last(), i);
    }
}

} // verus!
