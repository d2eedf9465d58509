//! File names of flag files: a template whose first run of `%` characters is
//! replaced by the gpubox id, zero-padded to the length of the run.
use vstd::prelude::*;
use vstd::string::StringSliceAdditionalSpecFns;

verus! {

/// The placeholder character of a file-name template.
pub const PLACEHOLDER: u8 = 0x25;

/// The decimal digits of `n`, with leading zeros up to `width` digits.
pub open spec fn padded_decimal(n: nat, width: nat) -> Seq<u8>
    decreases n + width,
{
    if n < 10 && width <= 1 {
        seq![(48 + n) as u8]
    } else {
        padded_decimal(n / 10, if width > 0 { (width - 1) as nat } else { 0 }) + seq![
            (48 + n % 10) as u8,
        ]
    }
}

/// Index of the first placeholder at or after `i`, or the length of `t` if
/// there is none.
pub open spec fn first_placeholder(t: Seq<u8>, i: int) -> int
    decreases t.len() - i,
{
    if i >= t.len() || i < 0 {
        t.len() as int
    } else if t[i] == PLACEHOLDER {
        i
    } else {
        first_placeholder(t, i + 1)
    }
}

/// Index just past the run of placeholders that starts at `i`.
pub open spec fn placeholder_run_end(t: Seq<u8>, i: int) -> int
    decreases t.len() - i,
{
    if 0 <= i < t.len() && t[i] == PLACEHOLDER {
        placeholder_run_end(t, i + 1)
    } else {
        i
    }
}

/// The template with its first run of placeholders replaced by `id`, padded
/// to the run's length; `None` if the template has no placeholder.
pub open spec fn expand_template(t: Seq<u8>, id: nat) -> Option<Seq<u8>> {
    let start = first_placeholder(t, 0);
    if start >= t.len() {
        None
    } else {
        let end = placeholder_run_end(t, start);
        Some(
            t.subrange(0, start) + padded_decimal(id, (end - start) as nat) + t.subrange(
                end,
                t.len() as int,
            ),
        )
    }
}

/// Appends the decimal digits of `n`, with leading zeros up to `width` digits.
fn push_padded_decimal(out: &mut Vec<u8>, n: usize, width: usize)
    ensures
        final(out)@ == old(out)@ + padded_decimal(n as nat, width as nat),
    decreases n + width,
{
    if n < 10 && width <= 1 {
        out.push(48u8 + n as u8);
    } else {
        let w = if width > 0 {
            width - 1
        } else {
            0
        };
        push_padded_decimal(out, n / 10, w);
        out.push(48u8 + (n % 10) as u8);
    }
}

proof fn lemma_placeholder_run_bounds(t: Seq<u8>, i: int)
    requires
        0 <= i <= t.len(),
    ensures
        i <= placeholder_run_end(t, i) <= t.len(),
    decreases t.len() - i,
{
    if 0 <= i < t.len() && t[i] == PLACEHOLDER {
        lemma_placeholder_run_bounds(t, i + 1);
    }
}

/// The file name for gpubox `id`: `template` with its first run of `%`
/// replaced by `id` in decimal, zero-padded to the length of the run. `None`
/// if the template has no `%`.
pub fn expand_filename_template(template: &str, id: usize) -> (r: Option<Vec<u8>>)
    ensures
        match r {
            Some(v) => expand_template(template.spec_bytes(), id as nat) == Some(v@),
            None => expand_template(template.spec_bytes(), id as nat) is None,
        },
{
    let t = template.as_bytes();
    let ghost ts = template.spec_bytes();
    let n = t.len();
    let mut start: usize = 0;
    while start < n && t[start] != PLACEHOLDER
        invariant
            t@ == ts,
            n == ts.len(),
            start <= n,
            first_placeholder(ts, 0) == first_placeholder(ts, start as int),
        decreases n - start,
    {
        start += 1;
    }
    if start == n {
        return None;
    }
    let mut end: usize = start;
    while end < n && t[end] == PLACEHOLDER
        invariant
            t@ == ts,
            n == ts.len(),
            start <= end <= n,
            placeholder_run_end(ts, start as int) == placeholder_run_end(ts, end as int),
        decreases n - end,
    {
        end += 1;
    }
    let mut out: Vec<u8> = Vec::new();
    let mut i: usize = 0;
    while i < start
        invariant
            t@ == ts,
            n == ts.len(),
            i <= start < n,
            out@ == ts.subrange(0, i as int),
        decreases start - i,
    {
        out.push(t[i]);
        i += 1;
        proof {
            assert(out@ =~= ts.subrange(0, i as int));
        }
    }
    push_padded_decimal(&mut out, id, end - start);
    let ghost head = out@;
    let mut j: usize = end;
    while j < n
        invariant
            t@ == ts,
            n == ts.len(),
            end <= j <= n,
            out@ == head + ts.subrange(end as int, j as int),
        decreases n - j,
    {
        out.push(t[j]);
        j += 1;
        proof {
            assert(out@ =~= head + ts.subrange(end as int, j as int));
        }
    }
    proof {
        assert(out@ =~= ts.subrange(0, start as int) + padded_decimal(id as nat, (end - start) as nat)
            + ts.subrange(end as int, ts.len() as int));
    }
    Some(out)
}

} // verus!
