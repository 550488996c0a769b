//! Line selection for broker activity exports.
//!
//! A broker's activity statement mixes several report sections in one
//! file; the adapter picks each section's lines out by their prefixes
//! before handing them to a reader.  The selection itself is plain
//! string logic and lives here.

use vstd::prelude::*;
use vstd::string::StringExecFns;

verus! {

/// Why an export could not be read.
#[derive(Debug, Clone, PartialEq, Eq)]
pub struct Error {
    pub reason: String,
}

impl Error {
    /// An error carrying a caller-supplied reason.
    pub fn new(reason: &str) -> (e: Error)
        ensures
            e.reason@ == reason@,
    {
        Error { reason: reason.to_owned() }
    }
}

/// The kept lines, in order, each with a newline after it.
pub open spec fn concat_filtered(lines: Seq<String>, keep: Seq<bool>) -> Seq<char>
    recommends
        lines.len() == keep.len(),
    decreases lines.len(),
{
    if lines.len() == 0 {
        Seq::empty()
    } else {
        (if keep[0] {
            lines[0]@ + seq!['\n']
        } else {
            Seq::empty()
        }) + concat_filtered(lines.drop_first(), keep.drop_first())
    }
}

proof fn lemma_concat_filtered_push(lines: Seq<String>, keep: Seq<bool>, a: String, b: bool)
    requires
        lines.len() == keep.len(),
    ensures
        concat_filtered(lines.push(a), keep.push(b)) == concat_filtered(lines, keep) + (if b {
            a@ + seq!['\n']
        } else {
            Seq::<char>::empty()
        }),
    decreases lines.len(),
{
    if lines.len() == 0 {
        assert(lines.push(a).drop_first() =~= Seq::<String>::empty());
        assert(keep.push(b).drop_first() =~= Seq::<bool>::empty());
        assert(concat_filtered(Seq::<String>::empty(), Seq::<bool>::empty())
            == Seq::<char>::empty());
        assert(concat_filtered(lines.push(a), keep.push(b)) =~= concat_filtered(lines, keep) + (
        if b {
            a@ + seq!['\n']
        } else {
            Seq::<char>::empty()
        }));
    } else {
        assert(lines.push(a).drop_first() =~= lines.drop_first().push(a));
        assert(keep.push(b).drop_first() =~= keep.drop_first().push(b));
        lemma_concat_filtered_push(lines.drop_first(), keep.drop_first(), a, b);
        assert(concat_filtered(lines.push(a), keep.push(b)) =~= concat_filtered(lines, keep) + (
        if b {
            a@ + seq!['\n']
        } else {
            Seq::<char>::empty()
        }));
    }
}

/// One buffer holding, in order, each line the predicate keeps, with a
/// newline after every kept line.
pub fn filter_lines<F: Fn(&String) -> bool>(lines: &[String], function: F) -> (r: String)
    requires
        forall|l: &String| call_requires(function, (l,)),
    ensures
        exists|keep: Seq<bool>|
            {
                &&& keep.len() == lines@.len()
                &&& (forall|k: int|
                    0 <= k < lines@.len() ==> call_ensures(function, (&lines@[k],), keep[k]))
                &&& r@ == concat_filtered(lines@, keep)
            },
{
    let mut out = String::new();
    let ghost mut keep = Seq::<bool>::empty();
    let n = lines.len();
    let mut i: usize = 0;
    proof {
        assert(lines@.take(0) =~= Seq::<String>::empty());
    }
    while i < n
        invariant
            i <= n,
            n == lines@.len(),
            keep.len() == i,
            forall|k: int| 0 <= k < i ==> call_ensures(function, (&lines@[k],), keep[k]),
            out@ == concat_filtered(lines@.take(i as int), keep),
            forall|l: &String| call_requires(function, (l,)),
        decreases n - i,
    {
        let line = &lines[i];
        let m = function(line);
        proof {
            lemma_concat_filtered_push(lines@.take(i as int), keep, lines@[i as int], m);
            assert(lines@.take(i as int).push(lines@[i as int]) =~= lines@.take(i + 1));
            keep = keep.push(m);
        }
        if m {
            out.append(line.as_str());
            proof {
                reveal_strlit("\n");
                assert("\n"@ =~= seq!['\n']);
            }
            out.append("\n");
        }
        i = i + 1;
    }
    proof {
        assert(lines@.take(n as int) =~= lines@);
    }
    out
}

} // verus!
