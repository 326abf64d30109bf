//! The decisions of a `par for` loop: which items it runs over, what one
//! item's body outcome means for the loop, and which failure the loop
//! reports when workers fail. Running the workers is the host's part.

use vstd::prelude::*;
use crate::ast::Value;
use crate::errors::InterpreterError;
use crate::text::{append_str, chars_of, owned, string_of};
use crate::value::{copy_values, kind_name, same_seq, value_kind_name};

verus! {

/// The message refusing `par for` during macro expansion.
pub open spec fn par_meta_message() -> Seq<char> {
    "par for is not available at expansion time: a meta fn is a pure function of its arguments (docs/macros.md)"@
}

/// The refusal of `par for` during macro expansion, if it applies.
pub fn par_for_gate(meta_mode: bool) -> (r: Option<InterpreterError>)
    ensures
        match r {
            None => !meta_mode,
            Some(e) => meta_mode && (e matches InterpreterError::RuntimeError { message } && message@
                == par_meta_message()),
        },
{
    if meta_mode {
        proof {
            reveal_strlit(
                "par for is not available at expansion time: a meta fn is a pure function of its arguments (docs/macros.md)",
            );
        }
        Some(InterpreterError::RuntimeError {
            message: owned(
                "par for is not available at expansion time: a meta fn is a pure function of its arguments (docs/macros.md)",
            ),
        })
    } else {
        None
    }
}

/// The last integer a `par for` over a range runs past: `end` itself for
/// `start..end`, `end + 1` (saturating) for `start..=end`.
pub open spec fn range_stop(end: i64, inclusive: bool) -> int {
    if inclusive {
        if end == i64::MAX { end as int } else { end + 1 }
    } else {
        end as int
    }
}

/// Whether `items` are what a `par for` runs over for `iterable`: a
/// list's items (as copies), a range's integers from its start up to its
/// stop, a string's characters each as a one-character string.
pub open spec fn par_items_of(iterable: Value, items: Seq<Value>) -> bool {
    match iterable {
        Value::List(xs) => same_seq(xs@, items),
        Value::Range { start, end, inclusive } => {
            let n = if range_stop(end, inclusive) > start { range_stop(end, inclusive) - start } else { 0 };
            &&& items.len() == n
            &&& forall|i: int| 0 <= i < n ==> #[trigger] items[i] == Value::Integer((start + i) as i64)
        },
        Value::String(s) => {
            &&& items.len() == s@.len()
            &&& forall|i: int|
                0 <= i < s@.len() ==> (#[trigger] items[i] matches Value::String(t) && t@ == seq![s@[i]])
        },
        _ => false,
    }
}

/// Whether a `par for` can run over the value: lists, ranges and strings.
pub open spec fn par_iterable(v: Value) -> bool {
    v is List || v is Range || v is String
}

/// The items a `par for` runs over, or the type error for a value it
/// cannot iterate.
pub fn par_items(iterable: &Value) -> (r: Result<Vec<Value>, InterpreterError>)
    ensures
        match r {
            Ok(items) => par_iterable(*iterable) && par_items_of(*iterable, items@),
            Err(e) => !par_iterable(*iterable) && (e matches InterpreterError::TypeError { message } && message@
                == "par for: cannot iterate over "@ + kind_name(*iterable) + " (lists, ranges, and strings)"@),
        },
{
    match iterable {
        Value::List(xs) => Ok(copy_values(xs)),
        Value::Range { start, end, inclusive } => {
            let stop: i64 = if *inclusive {
                if *end == i64::MAX {
                    *end
                } else {
                    *end + 1
                }
            } else {
                *end
            };
            let mut items: Vec<Value> = Vec::new();
            let mut k: i64 = *start;
            if k < stop {
                while k < stop
                    invariant
                        *start <= k <= stop,
                        stop as int == range_stop(*end, *inclusive),
                        items@.len() == k - *start,
                        forall|i: int| 0 <= i < items@.len() ==> #[trigger] items@[i] == Value::Integer(
                            (*start + i) as i64,
                        ),
                    decreases stop - k,
                {
                    items.push(Value::Integer(k));
                    k = k + 1;
                }
            }
            Ok(items)
        },
        Value::String(s) => {
            let cs = chars_of(s.as_str());
            let mut items: Vec<Value> = Vec::new();
            let mut i: usize = 0;
            while i < cs.len()
                invariant
                    cs@ == s@,
                    i <= cs@.len(),
                    items@.len() == i,
                    forall|j: int|
                        0 <= j < i ==> (#[trigger] items@[j] matches Value::String(t) && t@ == seq![s@[j]]),
                decreases cs@.len() - i,
            {
                let one = vec![cs[i]];
                let t = string_of(one.as_slice());
                proof {
                    assert(one@ =~= seq![s@[i as int]]);
                }
                items.push(Value::String(t));
                i = i + 1;
            }
            Ok(items)
        },
        _ => {
            let mut m = owned("par for: cannot iterate over ");
            let kind = value_kind_name(iterable);
            append_str(&mut m, kind.as_str());
            append_str(&mut m, " (lists, ranges, and strings)");
            proof {
                reveal_strlit("par for: cannot iterate over ");
                reveal_strlit(" (lists, ranges, and strings)");
            }
            Err(InterpreterError::TypeError { message: m })
        },
    }
}

/// What one item's body outcome means for the loop: a value or a
/// `continue` lets the loop go on; `break` and `return` cannot leave a
/// `par for`; any other error stops it.
pub fn settle_par_item(r: Result<Value, InterpreterError>) -> (o: Result<(), InterpreterError>)
    ensures
        match r {
            Ok(_) => o is Ok,
            Err(InterpreterError::ContinueSignal) => o is Ok,
            Err(InterpreterError::BreakSignal(_)) => o matches Err(InterpreterError::RuntimeError { message })
                && message@ == "break cannot cross a par for boundary"@,
            Err(InterpreterError::ReturnSignal(_)) => o matches Err(InterpreterError::RuntimeError { message })
                && message@ == "return cannot cross a par for boundary"@,
            Err(e) => o == Err::<(), InterpreterError>(e),
        },
{
    proof {
        reveal_strlit("break cannot cross a par for boundary");
        reveal_strlit("return cannot cross a par for boundary");
    }
    match r {
        Ok(_) => Ok(()),
        Err(InterpreterError::ContinueSignal) => Ok(()),
        Err(InterpreterError::BreakSignal(_)) => Err(
            InterpreterError::RuntimeError { message: owned("break cannot cross a par for boundary") },
        ),
        Err(InterpreterError::ReturnSignal(_)) => Err(
            InterpreterError::RuntimeError { message: owned("return cannot cross a par for boundary") },
        ),
        Err(e) => Err(e),
    }
}

/// The position of the failure a `par for` reports among the workers'
/// results: the failure at the smallest item index, the first such among
/// equal indexes; `None` when every worker succeeded.
pub open spec fn first_failure(rs: Seq<Result<(), (usize, InterpreterError)>>) -> Option<int>
    decreases rs.len(),
{
    if rs.len() == 0 {
        None
    } else {
        let prev = first_failure(rs.drop_last());
        match rs.last() {
            Ok(_) => prev,
            Err((idx, _)) => match prev {
                None => Some(rs.len() - 1),
                Some(p) => match rs[p] {
                    Err((pidx, _)) => if idx < pidx { Some(rs.len() - 1) } else { Some(p) },
                    Ok(_) => Some(p),
                },
            },
        }
    }
}

proof fn lemma_first_failure(rs: Seq<Result<(), (usize, InterpreterError)>>)
    ensures
        match first_failure(rs) {
            Some(p) => 0 <= p < rs.len() && rs[p] is Err,
            None => forall|i: int| 0 <= i < rs.len() ==> #[trigger] rs[i] is Ok,
        },
    decreases rs.len(),
{
    if rs.len() > 0 {
        lemma_first_failure(rs.drop_last());
        assert forall|i: int| 0 <= i < rs.len() - 1 implies rs.drop_last()[i] == rs[i] by {}
    }
}

/// The outcome of a `par for` from its workers' results: the failure at
/// the smallest item index, else `Unit`.
pub fn combine_par_results(rs: Vec<Result<(), (usize, InterpreterError)>>) -> (r: Result<Value, InterpreterError>)
    ensures
        match first_failure(rs@) {
            None => r == Ok::<Value, InterpreterError>(Value::Unit),
            Some(p) => rs@[p] matches Err((_, e)) && r == Err::<Value, InterpreterError>(e),
        },
{
    let ghost all = rs@;
    let mut best: Option<(usize, InterpreterError)> = None;
    let ghost mut pos: int = -1;
    let mut rest = rs;
    let mut taken: usize = 0;
    let n = rest.len();
    proof {
        assert(all.take(0) =~= Seq::<Result<(), (usize, InterpreterError)>>::empty());
        assert(all.skip(0) =~= all);
    }
    while taken < n
        invariant
            taken <= n,
            n == all.len(),
            rest@ == all.skip(taken as int),
            match first_failure(all.take(taken as int)) {
                None => best is None,
                Some(p) => best == (match all[p] {
                    Err(x) => Some(x),
                    Ok(_) => None,
                }),
            },
        decreases n - taken,
    {
        let item = rest.remove(0);
        proof {
            assert(item == all[taken as int]);
            assert(rest@ =~= all.skip(taken + 1));
            let t = all.take(taken + 1);
            assert(t.drop_last() =~= all.take(taken as int));
            assert(t.last() == all[taken as int]);
            lemma_first_failure(all.take(taken as int));
            if let Some(p) = first_failure(all.take(taken as int)) {
                assert(all.take(taken as int)[p] == all[p]);
                assert(t[p] == all[p]);
            }
        }
        match item {
            Ok(_) => {},
            Err((idx, e)) => {
                let replace = match &best {
                    None => true,
                    Some((bi, _)) => idx < *bi,
                };
                if replace {
                    best = Some((idx, e));
                }
            },
        }
        taken = taken + 1;
    }
    proof {
        assert(all.take(n as int) =~= all);
        lemma_first_failure(all);
    }
    match best {
        Some((_, e)) => Err(e),
        None => Ok(Value::Unit),
    }
}

} // verus!
