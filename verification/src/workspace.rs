//! Which ground-model file a command works on when none is named: the single
//! `*.gm` file in the working directory, or a refusal that says why not.

use vstd::prelude::*;
use crate::error::Error;
use crate::sorting::{lemma_insert_sorted_at, sort_by};
use crate::sync::strings_view;
use crate::text::{chars_lt, copy_string, decimal, decimal_string, owned, push_str, text_lt};

verus! {

/// File names in the order `str` compares them.
pub open spec fn name_lt() -> spec_fn(Seq<char>, Seq<char>) -> bool {
    |a: Seq<char>, b: Seq<char>| chars_lt(a, b)
}

/// Names separated by `, `.
pub open spec fn comma_list(s: Seq<Seq<char>>) -> Seq<char>
    decreases s.len(),
{
    if s.len() == 0 {
        seq![]
    } else if s.len() == 1 {
        s[0]
    } else {
        comma_list(s.drop_last()) + ", "@ + s.last()
    }
}

/// The file to use among the `*.gm` files found: the one there is, or the
/// refusal when there are none or several (named in order).
pub open spec fn file_choice(names: Seq<Seq<char>>) -> Result<Seq<char>, Seq<char>> {
    if names.len() == 1 {
        Ok(names[0])
    } else if names.len() == 0 {
        Err("no ground-model file found; pass --file or run `gm init`"@)
    } else {
        Err(decimal(names.len()) + " ground-model files here; pass --file to say which ("@ + comma_list(
            sort_by(names, name_lt()),
        ) + ")"@)
    }
}

fn sort_names(v: &Vec<String>) -> (r: Vec<String>)
    ensures
        strings_view(r@) == sort_by(strings_view(v@), name_lt()),
{
    let mut r: Vec<String> = Vec::new();
    let mut i: usize = 0;
    while i < v.len()
        invariant
            i <= v@.len(),
            strings_view(r@) == sort_by(strings_view(v@).take(i as int), name_lt()),
        decreases v@.len() - i,
    {
        let x = copy_string(&v[i]);
        let ghost rv = strings_view(r@);
        let mut j = r.len();
        while j > 0 && text_lt(x.as_str(), r[j - 1].as_str())
            invariant
                j <= r@.len(),
                rv == strings_view(r@),
                forall|k: int| j <= k < rv.len() ==> (name_lt())(x@, #[trigger] rv[k]),
            decreases j,
        {
            j = j - 1;
        }
        proof {
            lemma_insert_sorted_at(rv, x@, name_lt(), j as int);
            let t = strings_view(v@).take(i + 1);
            assert(t.drop_last() =~= strings_view(v@).take(i as int));
            assert(t.last() == x@);
        }
        r.insert(j, x);
        assert(strings_view(r@) =~= rv.insert(j as int, x@));
        i = i + 1;
    }
    assert(strings_view(v@).take(v@.len() as int) =~= strings_view(v@));
    r
}

/// Chooses the file a command works on from the names of the `*.gm` files in
/// the working directory.
pub fn choose_file(names: &Vec<String>) -> (r: Result<String, Error>)
    ensures
        match r {
            Ok(name) => file_choice(strings_view(names@)) == Ok::<Seq<char>, Seq<char>>(name@),
            Err(Error::Invalid(m)) => file_choice(strings_view(names@)) == Err::<Seq<char>, Seq<char>>(m@),
            Err(_) => false,
        },
{
    let n = names.len();
    if n == 1 {
        return Ok(copy_string(&names[0]));
    }
    if n == 0 {
        return Err(Error::Invalid(owned("no ground-model file found; pass --file or run `gm init`")));
    }
    let sorted = sort_names(names);
    let ghost sv = strings_view(sorted@);
    let mut list = copy_string(&sorted[0]);
    let mut i: usize = 1;
    assert(sv.take(1) =~= seq![sv[0]]);
    while i < sorted.len()
        invariant
            1 <= i <= sorted@.len(),
            sv == strings_view(sorted@),
            list@ == comma_list(sv.take(i as int)),
        decreases sorted@.len() - i,
    {
        push_str(&mut list, ", ");
        push_str(&mut list, sorted[i].as_str());
        proof {
            let t = sv.take(i + 1);
            assert(t.drop_last() =~= sv.take(i as int));
            assert(t.last() == sv[i as int]);
        }
        i = i + 1;
    }
    assert(sv.take(sv.len() as int) =~= sv);
    let mut m = decimal_string(n as u64);
    push_str(&mut m, " ground-model files here; pass --file to say which (");
    push_str(&mut m, list.as_str());
    push_str(&mut m, ")");
    Err(Error::Invalid(m))
}

} // verus!
