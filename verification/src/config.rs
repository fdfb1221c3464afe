//! Resolving the process argument list into a command.

use vstd::prelude::*;
use vstd::slice::slice_index_get;
use vstd::string::*;

use crate::errors::TodoError;

verus! {

/// The resolved command line: a verb selecting the operation, and an
/// optional noun made of every later argument.  The verb's value is not
/// judged here; an unknown verb fails later, at dispatch.
pub struct Config {
    pub verb: String,
    pub noun: Option<String>,
}

/// `parts` joined with one space between neighbours.
pub open spec fn join_spaces(parts: Seq<Seq<char>>) -> Seq<char>
    decreases parts.len(),
{
    if parts.len() == 0 {
        Seq::<char>::empty()
    } else if parts.len() == 1 {
        parts[0]
    } else {
        parts[0] + seq![' '] + join_spaces(parts.drop_first())
    }
}

proof fn lemma_join_spaces_push(parts: Seq<Seq<char>>, p: Seq<char>)
    ensures
        join_spaces(parts.push(p)) == if parts.len() == 0 {
            p
        } else {
            join_spaces(parts) + seq![' '] + p
        },
    decreases parts.len(),
{
    if parts.len() == 0 {
        assert(parts.push(p)[0] == p);
    } else {
        lemma_join_spaces_push(parts.drop_first(), p);
        assert(parts.push(p).drop_first() =~= parts.drop_first().push(p));
        assert(parts.push(p)[0] == parts[0]);
        if parts.len() > 1 {
            assert(parts[0] + seq![' '] + (join_spaces(parts.drop_first()) + seq![' '] + p)
                =~= (parts[0] + seq![' '] + join_spaces(parts.drop_first())) + seq![' '] + p);
        }
    }
}

impl Config {
    /// Resolves the argument list.  Fewer than two arguments means no verb
    /// was given: [`TodoError::NotEnoughArguments`].  Otherwise the verb is
    /// the argument after the program name, and the noun is every later
    /// argument joined with single spaces — absent where none remain.
    pub fn new(args: &[String]) -> (r: Result<Config, TodoError>)
        ensures
            match r {
                Ok(c) => {
                    &&& args@.len() >= 2
                    &&& c.verb@ == args@[1]@
                    &&& (args@.len() == 2 ==> c.noun is None)
                    &&& (args@.len() > 2 ==> (c.noun matches Some(n) && n@ == join_spaces(
                        args.deep_view().skip(2),
                    )))
                },
                Err(e) => args@.len() < 2 && e == TodoError::NotEnoughArguments,
            },
    {
        if args.len() < 2 {
            return Err(TodoError::NotEnoughArguments);
        }
        let verb = slice_index_get(args, 1).clone();
        if args.len() > 2 {
            let ghost dv = args.deep_view().skip(2);
            let mut noun = slice_index_get(args, 2).clone();
            proof {
                assert(dv.take(1) =~= seq![dv[0]]);
                assert(dv[0] == args@[2]@);
            }
            let mut i: usize = 3;
            while i < args.len()
                invariant
                    3 <= i <= args@.len(),
                    args@.len() == args.deep_view().len(),
                    dv == args.deep_view().skip(2),
                    noun@ == join_spaces(dv.take(i - 2)),
                decreases args@.len() - i,
            {
                noun.append(" ");
                noun.append(slice_index_get(args, i).as_str());
                proof {
                    reveal_strlit(" ");
                    assert(" "@ =~= seq![' ']);
                    let k = i - 2;
                    lemma_join_spaces_push(dv.take(k), dv[k]);
                    assert(dv.take(k).push(dv[k]) =~= dv.take(k + 1));
                    assert(dv[k] == args@[i as int]@);
                }
                i += 1;
            }
            proof {
                assert(dv.take(args@.len() - 2) =~= dv);
            }
            Ok(Config { verb, noun: Some(noun) })
        } else {
            Ok(Config { verb, noun: None })
        }
    }
}

} // verus!
