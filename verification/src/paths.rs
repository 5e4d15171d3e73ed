use vstd::prelude::*;

verus! {

/// ASCII `/`, the path separator.
pub const SEPARATOR: u8 = 47;

/// ASCII `.`, the extension separator.
pub const DOT: u8 = 46;

/// The suffix appended to the input's file stem: `_kmer.txt`.
pub open spec fn output_suffix() -> Seq<u8> {
    seq![95u8, 107u8, 109u8, 101u8, 114u8, DOT, 116u8, 120u8, 116u8]
}

/// `root` is a path prefix of `path`: a byte prefix whose match ends at
/// a component boundary.
pub open spec fn is_path_under(path: Seq<u8>, root: Seq<u8>) -> bool {
    path.len() >= root.len() && path.subrange(0, root.len() as int) == root && (path.len()
        == root.len() || root.len() == 0 || root.last() == SEPARATOR || path[root.len() as int]
        == SEPARATOR)
}

/// The index right after the last separator of `s`; 0 when none occurs.
pub open spec fn file_name_start(s: Seq<u8>) -> int
    decreases s.len(),
{
    if s.len() == 0 {
        0
    } else if s.last() == SEPARATOR {
        s.len() as int
    } else {
        file_name_start(s.drop_last())
    }
}

/// The file name of `s`: everything after its last separator.
pub open spec fn file_name_of(s: Seq<u8>) -> Seq<u8> {
    s.subrange(file_name_start(s), s.len() as int)
}

/// The index of the last dot of `name` at a position past its first
/// byte, or -1 when there is none: a lone leading dot starts a hidden
/// file name rather than an extension.
pub open spec fn last_dot_past_start(name: Seq<u8>) -> int
    decreases name.len(),
{
    if name.len() <= 1 {
        -1
    } else if name.last() == DOT {
        name.len() - 1
    } else {
        last_dot_past_start(name.drop_last())
    }
}

/// The stem of a file name: everything before its last dot, the whole
/// name when it has no extension.
pub open spec fn stem_of(name: Seq<u8>) -> Seq<u8> {
    if last_dot_past_start(name) == -1 {
        name
    } else {
        name.subrange(0, last_dot_past_start(name))
    }
}

/// `b` with every leading separator removed.
pub open spec fn trim_separators(b: Seq<u8>) -> Seq<u8>
    decreases b.len(),
{
    if b.len() == 0 {
        b
    } else if b[0] == SEPARATOR {
        trim_separators(b.drop_first())
    } else {
        b
    }
}

/// `a` and `b` joined with exactly one separator between them.
pub open spec fn join_paths(a: Seq<u8>, b: Seq<u8>) -> Seq<u8> {
    if a.len() == 0 {
        b
    } else if a.last() == SEPARATOR {
        a + b
    } else {
        a + seq![SEPARATOR] + b
    }
}

/// Where the output table for `input` belongs: under `output_root`, at
/// the position `input` holds under `input_root`, named after the
/// input's file stem with `_kmer.txt` appended. `None` when `input` does
/// not lie under `input_root`, or its file name is empty.
pub open spec fn output_path_spec(input: Seq<u8>, input_root: Seq<u8>, output_root: Seq<u8>) -> Option<
    Seq<u8>,
> {
    if !is_path_under(input, input_root) {
        None
    } else if file_name_of(input).len() == 0 {
        None
    } else {
        let stub = trim_separators(input.skip(input_root.len() as int));
        let joined = join_paths(output_root, stub);
        let dir = joined.subrange(0, file_name_start(joined));
        Some(dir + stem_of(file_name_of(input)) + output_suffix())
    }
}

proof fn lemma_file_name_start_bounds(s: Seq<u8>)
    ensures
        0 <= file_name_start(s) <= s.len(),
    decreases s.len(),
{
    if s.len() > 0 && s.last() != SEPARATOR {
        lemma_file_name_start_bounds(s.drop_last());
    }
}

fn find_file_name_start(s: &[u8]) -> (r: usize)
    ensures
        r as int == file_name_start(s@),
        r <= s@.len(),
{
    let mut j: usize = s.len();
    proof {
        assert(s@.take(s@.len() as int) =~= s@);
        lemma_file_name_start_bounds(s@);
    }
    while j > 0
        invariant
            j <= s@.len(),
            file_name_start(s@) == file_name_start(s@.take(j as int)),
            0 <= file_name_start(s@.take(j as int)) <= j,
        decreases j,
    {
        if s[j - 1] == SEPARATOR {
            proof {
                assert(s@.take(j as int).last() == s@[j - 1]);
            }
            return j;
        }
        proof {
            assert(s@.take(j as int).drop_last() =~= s@.take(j - 1));
            lemma_file_name_start_bounds(s@.take(j - 1));
        }
        j = j - 1;
    }
    0
}

fn find_last_dot(s: &[u8]) -> (r: Option<usize>)
    ensures
        match r {
            Some(d) => last_dot_past_start(s@) == d as int && 1 <= d < s@.len(),
            None => last_dot_past_start(s@) == -1,
        },
{
    let mut j: usize = s.len();
    proof {
        assert(s@.take(s@.len() as int) =~= s@);
    }
    while j > 1
        invariant
            j <= s@.len() || (s@.len() <= 1 && j == s@.len()),
            j <= s@.len(),
            last_dot_past_start(s@) == last_dot_past_start(s@.take(j as int)),
        decreases j,
    {
        if s[j - 1] == DOT {
            proof {
                assert(s@.take(j as int).last() == s@[j - 1]);
            }
            return Some(j - 1);
        }
        proof {
            assert(s@.take(j as int).drop_last() =~= s@.take(j - 1));
        }
        j = j - 1;
    }
    None
}

fn check_path_under(path: &[u8], root: &[u8]) -> (r: bool)
    ensures
        r == is_path_under(path@, root@),
{
    if path.len() < root.len() {
        return false;
    }
    let mut i: usize = 0;
    while i < root.len()
        invariant
            i <= root@.len() <= path@.len(),
            forall|t: int| 0 <= t < i ==> path@[t] == root@[t],
        decreases root@.len() - i,
    {
        if path[i] != root[i] {
            proof {
                assert(path@.subrange(0, root@.len() as int)[i as int] == path@[i as int]);
            }
            return false;
        }
        i = i + 1;
    }
    proof {
        assert(path@.subrange(0, root@.len() as int) =~= root@);
    }
    if path.len() == root.len() {
        return true;
    }
    if root.len() == 0 {
        return true;
    }
    if root[root.len() - 1] == SEPARATOR {
        return true;
    }
    path[root.len()] == SEPARATOR
}

/// Derive the output file path from the input path: keep the input's
/// position under `input_root` but root it at `output_root`, and replace
/// the file name with the input's stem followed by `_kmer.txt`. Paths
/// are byte strings with `/` separators. `None` exactly when the input
/// does not lie under `input_root` or its file name is empty.
pub fn output_path_from_input(input_path: &[u8], input_root: &[u8], output_root: &[u8]) -> (r:
    Option<Vec<u8>>)
    ensures
        match r {
            Some(v) => output_path_spec(input_path@, input_root@, output_root@) == Some(v@),
            None => output_path_spec(input_path@, input_root@, output_root@) is None,
        },
{
    if !check_path_under(input_path, input_root) {
        return None;
    }
    let name_start = find_file_name_start(input_path);
    if name_start == input_path.len() {
        proof {
            assert(file_name_of(input_path@).len() == 0);
        }
        return None;
    }
    proof {
        assert(file_name_of(input_path@).len() > 0);
    }
    let mut stub_start: usize = input_root.len();
    while stub_start < input_path.len() && input_path[stub_start] == SEPARATOR
        invariant
            input_root@.len() <= stub_start <= input_path@.len(),
            trim_separators(input_path@.skip(input_root@.len() as int)) == trim_separators(
                input_path@.skip(stub_start as int),
            ),
        decreases input_path@.len() - stub_start,
    {
        proof {
            assert(input_path@.skip(stub_start as int)[0] == input_path@[stub_start as int]);
            assert(input_path@.skip(stub_start as int).drop_first() =~= input_path@.skip(
                stub_start + 1,
            ));
        }
        stub_start = stub_start + 1;
    }
    let ghost stub = trim_separators(input_path@.skip(input_root@.len() as int));
    proof {
        if stub_start < input_path@.len() {
            assert(input_path@.skip(stub_start as int)[0] == input_path@[stub_start as int]);
        }
        assert(stub == input_path@.skip(stub_start as int));
    }
    let mut joined: Vec<u8> = Vec::new();
    let mut i: usize = 0;
    while i < output_root.len()
        invariant
            i <= output_root@.len(),
            joined@ == output_root@.subrange(0, i as int),
        decreases output_root@.len() - i,
    {
        joined.push(output_root[i]);
        proof {
            assert(joined@ =~= output_root@.subrange(0, i + 1));
        }
        i = i + 1;
    }
    proof {
        assert(joined@ =~= output_root@);
    }
    if output_root.len() > 0 && output_root[output_root.len() - 1] != SEPARATOR {
        joined.push(SEPARATOR);
    }
    let ghost joined_head = joined@;
    let mut t: usize = stub_start;
    while t < input_path.len()
        invariant
            stub_start <= t <= input_path@.len(),
            joined@ == joined_head + input_path@.subrange(stub_start as int, t as int),
        decreases input_path@.len() - t,
    {
        joined.push(input_path[t]);
        proof {
            assert(joined@ =~= joined_head + input_path@.subrange(stub_start as int, t + 1));
        }
        t = t + 1;
    }
    proof {
        assert(input_path@.subrange(stub_start as int, input_path@.len() as int) =~= input_path@.skip(
            stub_start as int,
        ));
        assert(joined@ =~= join_paths(output_root@, stub));
    }
    let dir_end = find_file_name_start(joined.as_slice());
    joined.truncate(dir_end);
    let ghost dir = joined@;
    let name: &[u8] = &input_path[name_start..input_path.len()];
    let stem_end: usize = match find_last_dot(name) {
        Some(d) => name_start + d,
        None => input_path.len(),
    };
    proof {
        assert(stem_of(file_name_of(input_path@)) =~= input_path@.subrange(
            name_start as int,
            stem_end as int,
        ));
    }
    let mut u: usize = name_start;
    while u < stem_end
        invariant
            name_start <= u <= stem_end <= input_path@.len(),
            joined@ == dir + input_path@.subrange(name_start as int, u as int),
        decreases stem_end - u,
    {
        joined.push(input_path[u]);
        proof {
            assert(joined@ =~= dir + input_path@.subrange(name_start as int, u + 1));
        }
        u = u + 1;
    }
    joined.push(95);
    joined.push(107);
    joined.push(109);
    joined.push(101);
    joined.push(114);
    joined.push(DOT);
    joined.push(116);
    joined.push(120);
    joined.push(116);
    proof {
        assert(joined@ =~= dir + stem_of(file_name_of(input_path@)) + output_suffix());
    }
    Some(joined)
}

} // verus!
