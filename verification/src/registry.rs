//! Resolving a `-p` reference against the names of the compiled-in
//! plugin registry.

use vstd::prelude::*;

use crate::args::{strings_view, text_is};

verus! {

/// The position of the first name equal to `name`, or `-1`.
pub open spec fn name_index(names: Seq<Seq<char>>, name: Seq<char>) -> int
    decreases names.len(),
{
    if names.len() == 0 {
        -1
    } else if names[0] == name {
        0
    } else {
        let rest = name_index(names.drop_first(), name);
        if rest < 0 {
            -1
        } else {
            rest + 1
        }
    }
}

/// The position of the last `/` or `\` in `s`, or `-1`.
pub open spec fn last_separator(s: Seq<char>) -> int
    decreases s.len(),
{
    if s.len() == 0 {
        -1
    } else if s.last() == '/' || s.last() == '\\' {
        s.len() - 1
    } else {
        last_separator(s.drop_last())
    }
}

/// `.js`.
pub open spec fn js_suffix() -> Seq<char> {
    seq!['.', 'j', 's']
}

/// `@tabnas/`.
pub open spec fn scope_prefix() -> Seq<char> {
    seq!['@', 't', 'a', 'b', 'n', 'a', 's', '/']
}

/// The base name of a path-like reference: the text after its last `/`
/// or `\`, with one trailing `.js` removed.
pub open spec fn base_name(name: Seq<char>) -> Seq<char> {
    let base = name.skip(last_separator(name) + 1);
    if base.len() >= 3 && base.skip(base.len() - 3) == js_suffix() {
        base.take(base.len() - 3)
    } else {
        base
    }
}

/// Which registered name a `-p` reference resolves to, standing in for
/// `require(name)` then `require('@tabnas/' + name)`: the name itself,
/// else the base name of a path-like reference, else the tail of an
/// `@tabnas/<name>` reference.
pub open spec fn resolve(names: Seq<Seq<char>>, name: Seq<char>) -> Option<int> {
    if name_index(names, name) >= 0 {
        Some(name_index(names, name))
    } else if name_index(names, base_name(name)) >= 0 {
        Some(name_index(names, base_name(name)))
    } else if name.len() >= 8 && name.take(8) == scope_prefix() && name_index(
        names,
        name.skip(8),
    ) >= 0 {
        Some(name_index(names, name.skip(8)))
    } else {
        None
    }
}

proof fn lemma_name_index(names: Seq<Seq<char>>, name: Seq<char>)
    ensures
        -1 <= name_index(names, name) < names.len(),
        name_index(names, name) >= 0 ==> names[name_index(names, name)] == name,
        forall|j: int|
            0 <= j < names.len() && (name_index(names, name) < 0 || j < name_index(names, name))
                ==> names[j] != name,
    decreases names.len(),
{
    if names.len() > 0 && names[0] != name {
        lemma_name_index(names.drop_first(), name);
        assert forall|j: int| 1 <= j < names.len() implies names[j] == names.drop_first()[j - 1] by {}
    }
}

fn find_name(names: &Vec<String>, name: &Vec<char>) -> (r: Option<usize>)
    ensures
        match r {
            Some(i) => name_index(strings_view(names@), name@) == i,
            None => name_index(strings_view(names@), name@) == -1,
        },
{
    let ghost nv = strings_view(names@);
    let target = crate::text::string_of(name);
    let mut i: usize = 0;
    while i < names.len()
        invariant
            i <= names@.len(),
            nv == strings_view(names@),
            target@ == name@,
            forall|j: int| 0 <= j < i ==> nv[j] != name@,
        decreases names@.len() - i,
    {
        if names[i] == target {
            proof {
                lemma_name_index(nv, name@);
                assert(nv[i as int] == name@);
            }
            return Some(i);
        }
        i = i + 1;
    }
    proof {
        lemma_name_index(nv, name@);
        if name_index(nv, name@) >= 0 {
            assert(nv[name_index(nv, name@)] == name@);
        }
    }
    None
}

fn last_separator_exec(chars: &Vec<char>) -> (r: usize)
    ensures
        r as int == last_separator(chars@) + 1,
        r <= chars@.len(),
{
    let mut i = chars.len();
    assert(chars@.take(i as int) =~= chars@);
    while i > 0 && chars[i - 1] != '/' && chars[i - 1] != '\\'
        invariant
            i <= chars@.len(),
            last_separator(chars@) == last_separator(chars@.take(i as int)),
        decreases i,
    {
        assert(chars@.take(i as int).drop_last() =~= chars@.take(i - 1));
        i = i - 1;
    }
    proof {
        if i == 0 {
            assert(chars@.take(0) =~= Seq::<char>::empty());
        }
    }
    i
}

/// Resolve a `-p` reference against the registered `names`: see
/// [`resolve`]. The result is the position of the name it resolves to.
pub fn lookup(names: &Vec<String>, name: &String) -> (r: Option<usize>)
    ensures
        match r {
            Some(i) => resolve(strings_view(names@), name@) == Some(i as int),
            None => resolve(strings_view(names@), name@) is None,
        },
{
    let chars = crate::text::chars_of(name.as_str());
    if let Some(i) = find_name(names, &chars) {
        return Some(i);
    }
    let start = last_separator_exec(&chars);
    let mut base = crate::args::slice_chars(&chars, start, chars.len());
    assert(base@ =~= name@.skip(last_separator(name@) + 1));
    let n = base.len();
    if n >= 3 && base[n - 3] == '.' && base[n - 2] == 'j' && base[n - 1] == 's' {
        assert(base@.skip(n - 3) =~= js_suffix());
        base = crate::args::slice_chars(&base, 0, n - 3);
    } else {
        proof {
            if n >= 3 && base@.skip(n - 3) == js_suffix() {
                assert(base@[n - 3] == base@.skip(n - 3)[0]);
                assert(base@[n - 2] == base@.skip(n - 3)[1]);
                assert(base@[n - 1] == base@.skip(n - 3)[2]);
            }
        }
    }
    assert(base@ =~= base_name(name@));
    if let Some(i) = find_name(names, &base) {
        return Some(i);
    }
    let prefix = ['@', 't', 'a', 'b', 'n', 'a', 's', '/'];
    assert(prefix@ =~= scope_prefix());
    if chars.len() >= 8 {
        let head = crate::args::slice_chars(&chars, 0, 8);
        let head_string = crate::text::string_of(&head);
        if text_is(&head_string, &prefix) {
            let tail = crate::args::slice_chars(&chars, 8, chars.len());
            assert(head@ =~= name@.take(8));
            assert(tail@ =~= name@.skip(8));
            return find_name(names, &tail);
        }
        assert(head@ =~= name@.take(8));
    }
    None
}

} // verus!
