//! The SSH exec channel's command recognition: `tar -xzpPf <archive> -C
//! <dest>` extracts through the archive engine, `cd <base>; tar <args>
//! <dest> <files…>` creates one, and anything else goes to the container's
//! console. The shell-escaped file list groups tokens by a trailing
//! backslash: a token not ending in one closes the current path.

use vstd::prelude::*;
use vstd::string::{StrSliceExecFns, StringExecFns};
use crate::archive::{CompressionType, str_range_eq};

verus! {

/// The permission each recognized command demands.
#[derive(Clone, Copy, PartialEq, Eq, Structural, Debug)]
pub enum Permission {
    FileCreate,
    FileArchive,
    ControlConsole,
}

/// What an exec command line asks for, split into raw token groups; the
/// caller joins each group with spaces and strips the escaping
/// backslashes.
pub enum ExecCommand {
    TarExtract { archive: Vec<String>, destination: Vec<String> },
    TarCreate { base: String, destination: Vec<String>, files: Vec<Vec<String>> },
    Other,
}

/// A token that still ends in a backslash continues the current path.
pub open spec fn ends_backslash(t: Seq<char>) -> bool {
    t.len() > 0 && t.last() == '\\'
}

fn token_ends_backslash(t: &String) -> (r: bool)
    ensures
        r == ends_backslash(t@),
{
    let n = t.as_str().unicode_len();
    if n == 0 {
        false
    } else {
        t.as_str().get_char(n - 1) == '\\'
    }
}

fn token_is(t: &String, lit: &str) -> (r: bool)
    ensures
        r == (t@ == lit@),
{
    let n = t.as_str().unicode_len();
    let r = str_range_eq(t.as_str(), 0, n, lit);
    proof {
        assert(t@.subrange(0, t@.len() as int) =~= t@);
    }
    r
}

/// How many tokens the leading group takes: everything up to and
/// including the first token without a trailing backslash, or all of them
/// when every token continues.
pub open spec fn spec_take_group(toks: Seq<Seq<char>>) -> int
    decreases toks.len(),
{
    if toks.len() == 0 {
        0
    } else if !ends_backslash(toks[0]) {
        1
    } else {
        1 + spec_take_group(toks.subrange(1, toks.len() as int))
    }
}

pub proof fn lemma_take_group_bounds(toks: Seq<Seq<char>>)
    ensures
        0 <= spec_take_group(toks) <= toks.len(),
    decreases toks.len(),
{
    if toks.len() > 0 && ends_backslash(toks[0]) {
        lemma_take_group_bounds(toks.subrange(1, toks.len() as int));
    }
}

/// Takes the leading group off the tokens: up to and including the first
/// token without a trailing backslash, or everything when all continue.
pub fn take_group(toks: &Vec<String>, start: usize) -> (r: usize)
    requires
        start <= toks@.len(),
    ensures
        start <= r <= toks@.len(),
        r - start == spec_take_group(pvs(toks@).subrange(start as int, toks@.len() as int)),
{
    let mut i: usize = start;
    while i < toks.len()
        invariant
            start <= i <= toks@.len(),
            forall|j: int| start <= j < i ==> ends_backslash(pvs(toks@)[j]),
            spec_take_group(pvs(toks@).subrange(start as int, toks@.len() as int)) - (i - start)
                == spec_take_group(pvs(toks@).subrange(i as int, toks@.len() as int)),
        decreases toks@.len() - i,
    {
        let ghost tail = pvs(toks@).subrange(i as int, toks@.len() as int);
        proof {
            assert(tail[0] == pvs(toks@)[i as int]);
            assert(tail.subrange(1, tail.len() as int) =~= pvs(toks@).subrange(
                i + 1,
                toks@.len() as int,
            ));
            lemma_take_group_bounds(tail.subrange(1, tail.len() as int));
        }
        if !token_ends_backslash(&toks[i]) {
            return i + 1;
        }
        i += 1;
    }
    proof {
        assert(pvs(toks@).subrange(i as int, toks@.len() as int).len() == 0);
    }
    i
}

pub open spec fn pvs(v: Seq<String>) -> Seq<Seq<char>> {
    v.map_values(|s: String| s@)
}

/// The extraction shape: `tar -xzpPf …`.
pub open spec fn is_extract_shape(t: Seq<Seq<char>>) -> bool {
    t.len() >= 2 && t[0] == "tar"@ && t[1] == "-xzpPf"@
}

/// The creation shape: `cd <base> tar <args> …`, with at least one token
/// of tar arguments.
pub open spec fn is_create_shape(t: Seq<Seq<char>>) -> bool {
    t.len() >= 4 && t[0] == "cd"@ && t[2] == "tar"@
}

pub open spec fn pvv(v: Seq<Vec<String>>) -> Seq<Seq<Seq<char>>> {
    v.map_values(|g: Vec<String>| pvs(g@))
}

/// The token groups of a file list, in order: each group runs up to and
/// including its first token without a trailing backslash.
pub open spec fn spec_groups(toks: Seq<Seq<char>>) -> Seq<Seq<Seq<char>>>
    decreases toks.len(),
{
    if toks.len() == 0 {
        Seq::empty()
    } else {
        let g = spec_take_group(toks);
        if 1 <= g <= toks.len() {
            seq![toks.subrange(0, g)] + spec_groups(toks.subrange(g, toks.len() as int))
        } else {
            Seq::empty()
        }
    }
}

/// Recognizes the exec command. `tar -xzpPf` always yields an extraction:
/// the archive tokens run to the first `-C`, the destination tokens follow
/// it (none when `-C` is absent or last, which extracts into the base);
/// `cd <base> tar <args> …` yields a creation whose base drops its
/// trailing semicolons, whose first token group is the archive name, and
/// whose following groups are the files; everything else is console input.
pub fn parse_exec_command(tokens: &Vec<String>) -> (r: ExecCommand)
    ensures
        (r is TarExtract) <==> is_extract_shape(pvs(tokens@)),
        (r is TarCreate) <==> (!is_extract_shape(pvs(tokens@)) && is_create_shape(pvs(tokens@))),
        match r {
            ExecCommand::TarExtract { archive, destination } => ({
                &&& forall|j: int| 0 <= j < archive@.len() ==> (#[trigger] archive@[j])@ != "-C"@
                &&& (pvs(archive@) + seq!["-C"@] + pvs(destination@) =~= pvs(tokens@).subrange(
                    2,
                    tokens@.len() as int,
                ) || (destination@.len() == 0 && pvs(archive@) =~= pvs(tokens@).subrange(
                    2,
                    tokens@.len() as int,
                )))
            }),
            ExecCommand::TarCreate { base, destination, files } => ({
                let toks = pvs(tokens@);
                let g1 = spec_take_group(toks.subrange(4, toks.len() as int));
                &&& base@ == crate::backup::spec_trim_end_all(tokens@[1]@, ";"@)
                &&& pvs(destination@) == toks.subrange(4, 4 + g1)
                &&& pvv(files@) == spec_groups(toks.subrange(4 + g1, toks.len() as int))
            }),
            ExecCommand::Other => true,
        },
{
    if tokens.len() >= 2 && token_is(&tokens[0], "tar") && token_is(&tokens[1], "-xzpPf") {
        let mut archive: Vec<String> = Vec::new();
        let mut destination: Vec<String> = Vec::new();
        let mut i: usize = 2;
        let mut seen_dash_c = false;
        let ghost toks = pvs(tokens@);
        while i < tokens.len()
            invariant
                2 <= i <= tokens@.len(),
                toks == pvs(tokens@),
                forall|j: int| 0 <= j < archive@.len() ==> (#[trigger] archive@[j])@ != "-C"@,
                !seen_dash_c ==> destination@.len() == 0 && pvs(archive@) =~= toks.subrange(
                    2,
                    i as int,
                ),
                seen_dash_c ==> pvs(archive@) + seq!["-C"@] + pvs(destination@) =~= toks.subrange(
                    2,
                    i as int,
                ),
            decreases tokens@.len() - i,
        {
            if !seen_dash_c && token_is(&tokens[i], "-C") {
                seen_dash_c = true;
                proof {
                    reveal_strlit("-C");
                    assert(pvs(archive@) + seq!["-C"@] + pvs(destination@) =~= toks.subrange(
                        2,
                        i + 1,
                    ));
                }
            } else if !seen_dash_c {
                archive.push(tokens[i].clone());
                proof {
                    assert(pvs(archive@) =~= toks.subrange(2, i + 1));
                }
            } else {
                destination.push(tokens[i].clone());
                proof {
                    assert(pvs(archive@) + seq!["-C"@] + pvs(destination@) =~= toks.subrange(
                        2,
                        i + 1,
                    ));
                }
            }
            i += 1;
        }
        proof {
            assert(toks.subrange(2, tokens@.len() as int) =~= toks.subrange(2, i as int));
        }
        return ExecCommand::TarExtract { archive, destination };
    }
    if tokens.len() >= 4 && token_is(&tokens[0], "cd") && token_is(&tokens[2], "tar") {
        let base = crate::backup::trim_end_all(tokens[1].as_str(), ";");
        let ghost toks = pvs(tokens@);
        let first_end = take_group(tokens, 4);
        let ghost g1 = spec_take_group(toks.subrange(4, toks.len() as int));
        let mut destination: Vec<String> = Vec::new();
        let mut k: usize = 4;
        while k < first_end
            invariant
                4 <= k <= first_end <= tokens@.len(),
                toks == pvs(tokens@),
                tokens@[0]@ == "cd"@ && tokens@[2]@ == "tar"@,
                base@ == crate::backup::spec_trim_end_all(tokens@[1]@, ";"@),
                first_end == 4 + g1,
                g1 == spec_take_group(toks.subrange(4, toks.len() as int)),
                destination@.len() == k - 4,
                forall|m: int| 0 <= m < k - 4 ==> (#[trigger] destination@[m])@ == toks[4 + m],
            decreases first_end - k,
        {
            destination.push(tokens[k].clone());
            k += 1;
        }
        proof {
            assert(pvs(destination@) =~= toks.subrange(4, first_end as int));
        }
        let mut files: Vec<Vec<String>> = Vec::new();
        let mut pos = first_end;
        proof {
            assert(pvv(files@) + spec_groups(toks.subrange(pos as int, toks.len() as int))
                =~= spec_groups(toks.subrange(first_end as int, toks.len() as int)));
        }
        while pos < tokens.len()
            invariant
                4 <= first_end <= pos <= tokens@.len(),
                toks == pvs(tokens@),
                tokens@[0]@ == "cd"@ && tokens@[2]@ == "tar"@,
                base@ == crate::backup::spec_trim_end_all(tokens@[1]@, ";"@),
                first_end == 4 + g1,
                g1 == spec_take_group(toks.subrange(4, toks.len() as int)),
                pvs(destination@) == toks.subrange(4, first_end as int),
                pvv(files@) + spec_groups(toks.subrange(pos as int, toks.len() as int))
                    == spec_groups(toks.subrange(first_end as int, toks.len() as int)),
            decreases tokens@.len() - pos,
        {
            let ghost tail = toks.subrange(pos as int, toks.len() as int);
            let group_end = take_group(tokens, pos);
            proof {
                assert(tail.len() > 0);
                lemma_take_group_bounds(tail.subrange(1, tail.len() as int));
                assert(spec_take_group(tail) >= 1);
            }
            let mut group: Vec<String> = Vec::new();
            let mut g: usize = pos;
            while g < group_end
                invariant
                    toks == pvs(tokens@),
                    pos < group_end <= tokens@.len(),
                    pos <= g <= group_end,
                    group@.len() == g - pos,
                    forall|m: int| 0 <= m < g - pos ==> (#[trigger] group@[m])@ == toks[pos + m],
                decreases group_end - g,
            {
                group.push(tokens[g].clone());
                g += 1;
            }
            let ghost before = pvv(files@);
            files.push(group);
            proof {
                assert(pvs(files@.last()@) =~= toks.subrange(pos as int, group_end as int));
                assert(pvv(files@) =~= before + seq![pvs(files@.last()@)]);
                assert(tail.subrange(0, spec_take_group(tail)) =~= toks.subrange(
                    pos as int,
                    group_end as int,
                ));
                assert(tail.subrange(spec_take_group(tail), tail.len() as int) =~= toks.subrange(
                    group_end as int,
                    toks.len() as int,
                ));
                assert(spec_groups(tail) == seq![toks.subrange(pos as int, group_end as int)]
                    + spec_groups(toks.subrange(group_end as int, toks.len() as int)));
                assert(pvv(files@) + spec_groups(toks.subrange(group_end as int, toks.len() as int))
                    =~= before + spec_groups(tail));
            }
            pos = group_end;
        }
        proof {
            assert(toks.subrange(pos as int, toks.len() as int).len() == 0);
            assert(spec_groups(toks.subrange(pos as int, toks.len() as int))
                =~= Seq::<Seq<Seq<char>>>::empty());
            assert(pvv(files@) =~= pvv(files@) + Seq::<Seq<Seq<char>>>::empty());
        }
        return ExecCommand::TarCreate { base, destination, files };
    }
    ExecCommand::Other
}

/// The permission each command needs before any side effect.
pub fn required_permission(cmd: &ExecCommand) -> (r: Permission)
    ensures
        r == (match cmd {
            ExecCommand::TarExtract { .. } => Permission::FileCreate,
            ExecCommand::TarCreate { .. } => Permission::FileArchive,
            ExecCommand::Other => Permission::ControlConsole,
        }),
{
    match cmd {
        ExecCommand::TarExtract { .. } => Permission::FileCreate,
        ExecCommand::TarCreate { .. } => Permission::FileArchive,
        ExecCommand::Other => Permission::ControlConsole,
    }
}

/// The compression the created archive's extension demands; an unknown
/// extension refuses the command.
pub fn compression_for_extension(ext: &str) -> (r: Option<CompressionType>)
    ensures
        r == (if ext@ == "tar"@ {
            Some(CompressionType::Plain)
        } else if ext@ == "gz"@ {
            Some(CompressionType::Gz)
        } else if ext@ == "xz"@ {
            Some(CompressionType::Xz)
        } else if ext@ == "bz2"@ {
            Some(CompressionType::Bz2)
        } else if ext@ == "lz4"@ {
            Some(CompressionType::Lz4)
        } else if ext@ == "zst"@ {
            Some(CompressionType::Zstd)
        } else {
            Option::<CompressionType>::None
        }),
{
    let n = ext.unicode_len();
    proof {
        assert(ext@.subrange(0, ext@.len() as int) =~= ext@);
    }
    if str_range_eq(ext, 0, n, "tar") {
        Some(CompressionType::Plain)
    } else if str_range_eq(ext, 0, n, "gz") {
        Some(CompressionType::Gz)
    } else if str_range_eq(ext, 0, n, "xz") {
        Some(CompressionType::Xz)
    } else if str_range_eq(ext, 0, n, "bz2") {
        Some(CompressionType::Bz2)
    } else if str_range_eq(ext, 0, n, "lz4") {
        Some(CompressionType::Lz4)
    } else if str_range_eq(ext, 0, n, "zst") {
        Some(CompressionType::Zstd)
    } else {
        Option::None
    }
}

/// A token with its escaping backslashes removed, as the session strips
/// them before joining path fragments.
pub fn strip_backslashes(s: &str) -> (r: String)
    ensures
        r@ == s@.filter(|c: char| c != '\\'),
{
    let n = s.unicode_len();
    let mut r = String::new();
    let mut i: usize = 0;
    proof {
        reveal(Seq::filter);
        assert(s@.subrange(0, 0) =~= Seq::<char>::empty());
        assert(Seq::<char>::empty().filter(|c: char| c != '\\') =~= Seq::<char>::empty());
    }
    while i < n
        invariant
            0 <= i <= n,
            n == s@.len(),
            r@ == s@.subrange(0, i as int).filter(|c: char| c != '\\'),
        decreases n - i,
    {
        let c = s.get_char(i);
        if c != '\\' {
            r.append(s.substring_char(i, i + 1));
        }
        proof {
            reveal(Seq::filter);
            assert(s@.subrange(0, i + 1).drop_last() =~= s@.subrange(0, i as int));
            assert(s@.subrange(0, i + 1).last() == s@[i as int]);
            assert(s@.subrange(i as int, i + 1) =~= seq![s@[i as int]]);
        }
        i += 1;
    }
    proof {
        assert(s@.subrange(0, n as int) =~= s@);
    }
    r
}

} // verus!
