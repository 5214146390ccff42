use vstd::prelude::*;

verus! {

/// Index where the file name begins: just after the last `/`, or zero.
pub open spec fn file_start(p: Seq<u8>) -> int
    decreases p.len(),
{
    if p.len() == 0 {
        0
    } else if p.last() == 47 {
        p.len() as int
    } else {
        file_start(p.drop_last())
    }
}

/// Index of the last `.` in a file name, or minus one when there is none.
pub open spec fn last_dot(n: Seq<u8>) -> int
    decreases n.len(),
{
    if n.len() == 0 {
        -1
    } else if n.last() == 46 {
        n.len() - 1
    } else {
        last_dot(n.drop_last())
    }
}

/// The stem of a file name: everything before the last `.`, except that a
/// name whose only `.` opens it (a hidden file) is its own stem.
pub open spec fn stem_of(n: Seq<u8>) -> Seq<u8> {
    if last_dot(n) <= 0 {
        n
    } else {
        n.take(last_dot(n))
    }
}

/// The suffix appended to the input's stem to derive the output path.
pub open spec fn out_suffix() -> Seq<u8> {
    vstd::utf8::encode_utf8("_out.csv"@)
}

/// The stem used when the path has no file name at all.
pub open spec fn fallback_stem() -> Seq<u8> {
    vstd::utf8::encode_utf8("output"@)
}

/// The derived output path: the input's directory, then the input's file
/// stem with `_out.csv` appended.
pub open spec fn derived_output(p: Seq<u8>) -> Seq<u8> {
    let name = p.skip(file_start(p));
    let stem = if name.len() == 0 {
        fallback_stem()
    } else {
        stem_of(name)
    };
    p.take(file_start(p)) + stem + out_suffix()
}

/// The output path a run uses: the one given, or the derived one.
pub open spec fn resolved_output(input: Seq<u8>, output: Option<Seq<u8>>) -> Seq<u8> {
    match output {
        Some(p) => p,
        None => derived_output(input),
    }
}

/// Providing the derived path explicitly and omitting the output path name
/// the same file.
pub proof fn lemma_default_output_explicit(input: Seq<u8>)
    ensures
        resolved_output(input, Some(derived_output(input))) == resolved_output(input, None),
{
}

/// `file_start` points just after the last `/`.
proof fn lemma_file_start_at(p: Seq<u8>, k: int)
    requires
        0 <= k <= p.len(),
        forall|i: int| k <= i < p.len() ==> p[i] != 47,
        k > 0 ==> p[k - 1] == 47,
    ensures
        file_start(p) == k,
    decreases p.len(),
{
    if p.len() > 0 && k < p.len() {
        lemma_file_start_at(p.drop_last(), k);
    }
}

/// `last_dot` points at the last `.`.
proof fn lemma_last_dot_at(n: Seq<u8>, k: int)
    requires
        -1 <= k < n.len(),
        forall|i: int| k < i < n.len() ==> n[i] != 46,
        k >= 0 ==> n[k] == 46,
    ensures
        last_dot(n) == k,
    decreases n.len(),
{
    if n.len() > 0 && k < n.len() - 1 {
        lemma_last_dot_at(n.drop_last(), k);
    }
}

/// Derives the output path from the input path: the same directory, the
/// input's file stem, and the suffix `_out.csv`.
#[verifier::loop_isolation(false)]
#[verifier::rlimit(30)]
pub fn derive_output(input: &[u8]) -> (r: Vec<u8>)
    ensures
        r@ == derived_output(input@),
{
    let n: usize = input.len();

    // Find where the file name begins.
    let mut fs: usize = n;
    while fs > 0 && input[fs - 1] != 47
        invariant
            0 <= fs <= n,
            forall|i: int| fs <= i < n ==> input@[i] != 47,
        decreases fs,
    {
        fs -= 1;
    }
    proof {
        lemma_file_start_at(input@, fs as int);
    }

    // Find the last dot of the file name.
    let mut dot: usize = n;
    while dot > fs && input[dot - 1] != 46
        invariant
            fs <= dot <= n,
            forall|i: int| dot <= i < n ==> input@[i] != 46,
        decreases dot,
    {
        dot -= 1;
    }
    let ghost name = input@.skip(fs as int);
    proof {
        if dot > fs {
            lemma_last_dot_at(name, dot - 1 - fs);
        } else {
            lemma_last_dot_at(name, -1);
        }
    }

    let mut r: Vec<u8> = Vec::new();
    let stem_end: usize = if fs == n {
        // No file name: keep the directory and use the fallback stem.
        n
    } else if dot > fs + 1 {
        dot - 1
    } else {
        // No dot, or only a leading dot: the whole name is the stem.
        n
    };
    let mut i: usize = 0;
    while i < stem_end
        invariant
            0 <= i <= stem_end <= n,
            r@ == input@.take(i as int),
        decreases stem_end - i,
    {
        r.push(input[i]);
        proof {
            assert(input@.take(i + 1) =~= input@.take(i as int).push(input@[i as int]));
        }
        i += 1;
    }
    if fs == n {
        let mut fb = vstd::string::StrSliceExecFns::as_bytes_vec("output");
        r.append(&mut fb);
    }
    let mut sfx = vstd::string::StrSliceExecFns::as_bytes_vec("_out.csv");
    r.append(&mut sfx);
    proof {
        let p = input@;
        if fs == n {
            assert(name.len() == 0);
            assert(r@ =~= p.take(fs as int) + fallback_stem() + out_suffix());
        } else {
            let stem = stem_of(name);
            if dot > fs + 1 {
                assert(last_dot(name) == dot - 1 - fs > 0);
                assert(stem =~= name.take(dot - 1 - fs));
                assert(p.take(stem_end as int) =~= p.take(fs as int) + stem);
            } else {
                assert(last_dot(name) <= 0);
                assert(stem == name);
                assert(p.take(stem_end as int) =~= p.take(fs as int) + stem);
            }
            assert(r@ =~= p.take(fs as int) + stem + out_suffix());
        }
    }
    r
}

/// The output path a run uses: the one given, or the one derived from the
/// input path.
pub fn resolve_output(input: &[u8], output: Option<Vec<u8>>) -> (r: Vec<u8>)
    ensures
        match output {
            Some(p) => r@ == resolved_output(input@, Some(p@)),
            None => r@ == resolved_output(input@, None),
        },
{
    match output {
        Some(p) => p,
        None => derive_output(input),
    }
}

} // verus!
