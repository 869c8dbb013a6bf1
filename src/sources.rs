use vstd::prelude::*;

use crate::choice::{plain_choice, texts, views, Choice, ChoiceView};
use crate::text::{chars_of, split_on, split_text};

verus! {

/// The directories named by a `PATH` value, in order.
pub fn path_dirs(path: &String) -> (r: Vec<String>)
    ensures
        texts(r@) == split_on(path@, ':'),
{
    let r = split_text(path.as_str(), ':');
    proof {
        assert(texts(r@) =~= split_on(path@, ':'));
    }
    r
}

/// The names found in each directory, one directory after another.
pub open spec fn concat_all(dirs: Seq<Seq<Seq<char>>>) -> Seq<Seq<char>>
    decreases dirs.len(),
{
    if dirs.len() == 0 {
        Seq::empty()
    } else {
        concat_all(dirs.drop_last()) + dirs.last()
    }
}

/// The names of `s`, each at its first appearance only.
pub open spec fn first_seen(s: Seq<Seq<char>>) -> Seq<Seq<char>>
    decreases s.len(),
{
    if s.len() == 0 {
        Seq::empty()
    } else {
        let r = first_seen(s.drop_last());
        if r.contains(s.last()) {
            r
        } else {
            r.push(s.last())
        }
    }
}

/// The names found per directory, as character sequences.
pub open spec fn nested_texts(v: Seq<Vec<String>>) -> Seq<Seq<Seq<char>>> {
    v.map_values(|d: Vec<String>| texts(d@))
}

/// One choice per executable name, named and valued by it, in the order
/// first seen across the directories.
pub open spec fn bin_choices(dirs: Seq<Seq<Seq<char>>>) -> Seq<ChoiceView> {
    first_seen(concat_all(dirs)).map_values(|b: Seq<char>| plain_choice(b))
}

/// Each name appears once among the first-seen names, and exactly the names
/// of the input appear.
pub proof fn law_first_seen_unique(s: Seq<Seq<char>>)
    ensures
        forall|i: int, j: int| 0 <= i < j < first_seen(s).len() ==> first_seen(s)[i] != first_seen(s)[j],
        forall|b: Seq<char>| first_seen(s).contains(b) <==> s.contains(b),
    decreases s.len(),
{
    if s.len() > 0 {
        let u = s.drop_last();
        law_first_seen_unique(u);
        let r = first_seen(u);
        assert forall|b: Seq<char>| first_seen(s).contains(b) <==> s.contains(b) by {
            if s.contains(b) {
                let k = choose|k: int| 0 <= k < s.len() && s[k] == b;
                if k < u.len() {
                    assert(u[k] == b);
                    assert(u.contains(b));
                    let m = choose|m: int| 0 <= m < r.len() && r[m] == b;
                    if !r.contains(s.last()) {
                        assert(first_seen(s)[m] == b);
                    }
                } else if !r.contains(s.last()) {
                    assert(first_seen(s)[r.len() as int] == b);
                }
            }
            if first_seen(s).contains(b) {
                let m = choose|m: int| 0 <= m < first_seen(s).len() && first_seen(s)[m] == b;
                if m < r.len() {
                    assert(r[m] == first_seen(s)[m]);
                    assert(r.contains(b));
                    assert(u.contains(b));
                    let k = choose|k: int| 0 <= k < u.len() && u[k] == b;
                    assert(s[k] == b);
                } else {
                    assert(s[s.len() - 1] == b);
                }
            }
        }
    }
}

fn has_text(seen: &Vec<String>, b: &String) -> (r: bool)
    ensures
        r == texts(seen@).contains(b@),
{
    let mut i: usize = 0;
    while i < seen.len()
        invariant
            i <= seen@.len(),
            forall|j: int| 0 <= j < i ==> seen@[j]@ != b@,
        decreases seen@.len() - i,
    {
        if seen[i] == *b {
            assert(texts(seen@)[i as int] == b@);
            return true;
        }
        i = i + 1;
    }
    proof {
        if texts(seen@).contains(b@) {
            let k = choose|k: int| 0 <= k < seen@.len() && texts(seen@)[k] == b@;
            assert(seen@[k]@ == b@);
        }
    }
    false
}

/// The executables found in each directory of the search path, in path
/// order, as choices: a name found again in a later directory is left out.
pub fn unique_bins(found: &Vec<Vec<String>>) -> (r: Vec<Choice>)
    ensures
        views(r@) == bin_choices(nested_texts(found@)),
{
    let ghost dirs = nested_texts(found@);
    let mut seen: Vec<String> = Vec::new();
    let mut d: usize = 0;
    while d < found.len()
        invariant
            dirs == nested_texts(found@),
            d <= found@.len(),
            texts(seen@) == first_seen(concat_all(dirs.take(d as int))),
        decreases found@.len() - d,
    {
        let ghost before = concat_all(dirs.take(d as int));
        let names = &found[d];
        proof {
            assert(before + texts(names@).take(0) =~= before);
        }
        let mut k: usize = 0;
        while k < names.len()
            invariant
                names == found@[d as int],
                k <= names@.len(),
                texts(seen@) == first_seen(before + texts(names@).take(k as int)),
            decreases names@.len() - k,
        {
            let ghost s = before + texts(names@).take(k as int);
            proof {
                let t = before + texts(names@).take(k + 1);
                assert(t.drop_last() =~= s);
                assert(t.last() == names@[k as int]@);
            }
            if !has_text(&seen, &names[k]) {
                let b = names[k].clone();
                seen.push(b);
                proof {
                    assert(texts(seen@) =~= first_seen(s).push(b@));
                }
            }
            k = k + 1;
        }
        proof {
            let t = dirs.take(d + 1);
            assert(t.drop_last() =~= dirs.take(d as int));
            assert(t.last() == texts(names@));
            assert(texts(names@).take(k as int) =~= texts(names@));
        }
        d = d + 1;
    }
    proof {
        assert(dirs.take(d as int) =~= dirs);
    }
    let mut out: Vec<Choice> = Vec::new();
    let mut i: usize = 0;
    while i < seen.len()
        invariant
            i <= seen@.len(),
            texts(seen@) == first_seen(concat_all(dirs)),
            views(out@) == bin_choices(dirs).take(i as int),
        decreases seen@.len() - i,
    {
        let ghost prev = views(out@);
        let c = Choice::plain(seen[i].clone());
        out.push(c);
        proof {
            assert(views(out@) =~= prev.push(c@));
            assert(texts(seen@)[i as int] == seen@[i as int]@);
            assert(views(out@) =~= bin_choices(dirs).take(i + 1));
        }
        i = i + 1;
    }
    proof {
        assert(bin_choices(dirs).take(i as int) =~= bin_choices(dirs));
    }
    out
}

/// `s` ends with `suffix`.
pub open spec fn has_suffix(s: Seq<char>, suffix: Seq<char>) -> bool {
    suffix.len() <= s.len() && s.subrange(s.len() - suffix.len(), s.len() as int) == suffix
}

/// Whether `path` names a desktop entry file, by its `.desktop` ending.
pub fn is_desktop_file(path: &String) -> (r: bool)
    ensures
        r == has_suffix(path@, ".desktop"@),
{
    let p = chars_of(path.as_str());
    let suffix = chars_of(".desktop");
    if suffix.len() > p.len() {
        return false;
    }
    let plen = p.len();
    let offset = plen - suffix.len();
    let mut k: usize = 0;
    while k < suffix.len()
        invariant
            plen == p@.len(),
            p@ == path@,
            suffix@ == ".desktop"@,
            offset + suffix@.len() == p@.len(),
            k <= suffix@.len(),
            forall|m: int| 0 <= m < k ==> p@[offset + m] == suffix@[m],
        decreases suffix@.len() - k,
    {
        if p[offset + k] != suffix[k] {
            assert(p@.subrange(offset as int, p@.len() as int)[k as int] != suffix@[k as int]);
            return false;
        }
        k = k + 1;
    }
    assert(p@.subrange(offset as int, p@.len() as int) =~= suffix@);
    true
}

} // verus!
