//! Splitting parameterized response and URC lines into their fields:
//! `+VERB: a,b,c` carries the verb before the colon and the parameters
//! between the commas.

use vstd::prelude::*;

verus! {

/// Whether `c` separates fields of a parameterized line: `:` or `,`.
pub open spec fn is_param_sep(c: u8) -> bool {
    c == 58 || c == 44
}

/// The first index at or after `i` holding a separator, or `s.len()` if
/// there is none.
pub open spec fn first_sep_from(s: Seq<u8>, i: int) -> int
    decreases s.len() - i,
{
    if i < 0 || i >= s.len() {
        s.len() as int
    } else if is_param_sep(s[i]) {
        i
    } else {
        first_sep_from(s, i + 1)
    }
}

/// Bounds and characterization of [`first_sep_from`].
pub proof fn lemma_first_sep_from(s: Seq<u8>, i: int)
    requires
        0 <= i <= s.len(),
    ensures
        i <= first_sep_from(s, i) <= s.len(),
        first_sep_from(s, i) < s.len() ==> is_param_sep(s[first_sep_from(s, i)]),
        forall|j: int| i <= j < first_sep_from(s, i) ==> !is_param_sep(s[j]),
    decreases s.len() - i,
{
    if i < s.len() && !is_param_sep(s[i]) {
        lemma_first_sep_from(s, i + 1);
    }
}

/// The non-empty fields of `s[i..]`, split on `:` and `,`, in order.
pub open spec fn fields_from(s: Seq<u8>, i: int) -> Seq<Seq<u8>>
    decreases s.len() - i,
    via fields_from_decreases
{
    if i < 0 || i >= s.len() {
        Seq::empty()
    } else {
        let j = first_sep_from(s, i);
        if j >= s.len() {
            seq![s.subrange(i, s.len() as int)]
        } else {
            let rest = fields_from(s, j + 1);
            if j > i {
                seq![s.subrange(i, j)] + rest
            } else {
                rest
            }
        }
    }
}

#[via_fn]
proof fn fields_from_decreases(s: Seq<u8>, i: int) {
    if 0 <= i < s.len() {
        lemma_first_sep_from(s, i);
    }
}

/// The views of a vector of byte vectors.
pub open spec fn fields_view(s: Seq<Vec<u8>>) -> Seq<Seq<u8>> {
    Seq::new(s.len(), |i: int| s[i]@)
}

/// Copy `line[i..j]` into an owned field.
fn copy_field(line: &[u8], i: usize, j: usize) -> (r: Vec<u8>)
    requires
        i <= j <= line@.len(),
    ensures
        r@ == line@.subrange(i as int, j as int),
{
    let mut field: Vec<u8> = Vec::new();
    let mut k: usize = i;
    while k < j
        invariant
            i <= k <= j <= line@.len(),
            field@ == line@.subrange(i as int, k as int),
        decreases j - k,
    {
        field.push(line[k]);
        k = k + 1;
        proof {
            assert(field@ =~= line@.subrange(i as int, k as int));
        }
    }
    field
}

/// Split a line into its non-empty fields.
fn split_fields(line: &[u8]) -> (r: Vec<Vec<u8>>)
    ensures
        fields_view(r@) == fields_from(line@, 0),
{
    let mut out: Vec<Vec<u8>> = Vec::new();
    let mut i: usize = 0;
    proof {
        assert(fields_view(out@) + fields_from(line@, 0) =~= fields_from(line@, 0));
    }
    while i < line.len()
        invariant
            0 <= i <= line@.len(),
            fields_view(out@) + fields_from(line@, i as int) == fields_from(line@, 0),
        decreases line@.len() - i,
    {
        let ghost i0 = i as int;
        proof {
            lemma_first_sep_from(line@, i0);
        }
        // Scan to the next separator.
        let mut j: usize = i;
        while j < line.len() && !(line[j] == 58 || line[j] == 44)
            invariant
                i <= j <= line@.len(),
                i0 == i as int,
                first_sep_from(line@, i0) == first_sep_from(line@, j as int),
            decreases line@.len() - j,
        {
            j = j + 1;
        }
        proof {
            assert(j as int == first_sep_from(line@, i0));
        }
        if j >= line.len() {
            let field = copy_field(line, i, line.len());
            out.push(field);
            proof {
                assert(fields_from(line@, i0) =~= seq![
                    line@.subrange(i0, line@.len() as int),
                ]);
                assert(fields_view(out@) =~= fields_view(out@.drop_last()) + fields_from(
                    line@,
                    i0,
                ));
                assert(fields_view(out@) + fields_from(line@, line@.len() as int)
                    =~= fields_view(out@));
            }
            i = line.len();
        } else {
            if j > i {
                let field = copy_field(line, i, j);
                out.push(field);
                proof {
                    assert(fields_view(out@) =~= fields_view(out@.drop_last()).push(
                        line@.subrange(i0, j as int),
                    ));
                    assert(fields_view(out@) + fields_from(line@, j + 1) =~= fields_view(
                        out@.drop_last(),
                    ) + (seq![line@.subrange(i0, j as int)] + fields_from(line@, j + 1)));
                }
            }
            i = j + 1;
        }
    }
    proof {
        assert(fields_from(line@, i as int) =~= Seq::<Seq<u8>>::empty());
        assert(fields_view(out@) =~= fields_view(out@) + fields_from(line@, i as int));
    }
    out
}

/// Split an unsolicited line into its verb and its parameters: the verb
/// is the first non-empty field, the parameters are the rest in order.
pub fn split_parameterized_unsolicited(response_line: &[u8]) -> (r: (Vec<u8>, Vec<Vec<u8>>))
    requires
        fields_from(response_line@, 0).len() > 0,
    ensures
        r.0@ == fields_from(response_line@, 0)[0],
        fields_view(r.1@) == fields_from(response_line@, 0).drop_first(),
{
    let mut fields = split_fields(response_line);
    proof {
        assert(fields@.len() == fields_view(fields@).len());
    }
    let cmd = fields.remove(0);
    proof {
        assert(cmd@ == fields_from(response_line@, 0)[0]);
        assert(fields_view(fields@) =~= fields_from(response_line@, 0).drop_first());
    }
    (cmd, fields)
}

/// The parameters of one response line: all its non-empty fields, less
/// the leading verb when there is more than one field.
pub open spec fn line_params(s: Seq<u8>) -> Seq<Seq<u8>> {
    let f = fields_from(s, 0);
    if f.len() > 1 {
        f.drop_first()
    } else {
        f
    }
}

/// Split each response line into its parameters, handing the lines back
/// in reverse order, as list responses are consumed newest first.
pub fn split_parameterized_resp(response_lines: &Vec<Vec<u8>>) -> (r: Vec<Vec<Vec<u8>>>)
    ensures
        r@.len() == response_lines@.len(),
        forall|k: int|
            0 <= k < r@.len() ==> fields_view(#[trigger] r@[k]@) == line_params(
                response_lines@[response_lines@.len() - 1 - k]@,
            ),
{
    let mut out: Vec<Vec<Vec<u8>>> = Vec::new();
    let n = response_lines.len();
    let mut taken: usize = 0;
    while taken < n
        invariant
            0 <= taken <= n,
            n == response_lines@.len(),
            out@.len() == taken,
            forall|k: int|
                0 <= k < taken ==> fields_view(#[trigger] out@[k]@) == line_params(
                    response_lines@[n - 1 - k]@,
                ),
        decreases n - taken,
    {
        let line = &response_lines[n - 1 - taken];
        let mut fields = split_fields(line.as_slice());
        if fields.len() > 1 {
            proof {
                assert(fields@.len() == fields_view(fields@).len());
            }
            let _ = fields.remove(0);
            proof {
                assert(fields_view(fields@) =~= line_params(line@));
            }
        }
        out.push(fields);
        taken = taken + 1;
    }
    out
}

} // verus!
