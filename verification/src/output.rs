//! The folder and the files that samples are written to.

use vstd::prelude::*;
use vstd::string::*;

use crate::decimal;
use crate::text;

verus! {

/// The file of the bracket that starts at `b`: its two ends are in its name, or, for a bracket
/// that is not below `end`, its start and `plus`.
pub open spec fn filename(base_out: Seq<char>, b: nat, step: nat, end: nat) -> Seq<char> {
    if b < end {
        base_out + "/bracket_"@ + decimal::digits(b) + "_"@ + decimal::digits(
            (b + step - 1) as nat,
        ) + ".pgn"@
    } else {
        base_out + "/bracket_"@ + decimal::digits(b) + "_plus.pgn"@
    }
}

/// The file of the bracket that starts at `b`.
pub fn bracket_filename(base_out: &str, b: u32, step: u32, end: u32) -> (r: String)
    requires
        b < end ==> 0 < b + step <= u32::MAX,
    ensures
        r@ == filename(base_out@, b as nat, step as nat, end as nat),
{
    let mut r = base_out.to_owned();
    r.append("/bracket_");
    decimal::push_number(&mut r, b as u64);
    if b < end {
        r.append("_");
        decimal::push_number(&mut r, (b + step - 1) as u64);
        r.append(".pgn");
    } else {
        r.append("_plus.pgn");
    }
    r
}

/// Decimal writes a number, and no two numbers alike.
proof fn lemma_digits(n: nat)
    ensures
        decimal::value(decimal::digits(n)) == n,
        decimal::all_digits(decimal::digits(n)),
{
    decimal::digits_have_their_value(n);
}

/// What a file name is behind the number of its bracket starts with `_`.
proof fn lemma_filename_parts(base_out: Seq<char>, b: nat, step: nat, end: nat) -> (rest: Seq<char>)
    ensures
        filename(base_out, b, step, end) == (base_out + "/bracket_"@) + (decimal::digits(b)
            + rest),
        rest.len() > 0,
        rest[0] == '_',
{
    reveal_strlit("_");
    reveal_strlit("_plus.pgn");
    let head = base_out + "/bracket_"@ + decimal::digits(b);
    let rest = if b < end {
        "_"@ + decimal::digits((b + step - 1) as nat) + ".pgn"@
    } else {
        "_plus.pgn"@
    };
    assert(filename(base_out, b, step, end) =~= (base_out + "/bracket_"@) + (decimal::digits(b)
        + rest));
    rest
}

/// No two brackets share a file.
pub proof fn filenames_differ(base_out: Seq<char>, b1: nat, b2: nat, step: nat, end: nat)
    requires
        b1 != b2,
    ensures
        filename(base_out, b1, step, end) != filename(base_out, b2, step, end),
{
    let head = base_out + "/bracket_"@;
    let r1 = lemma_filename_parts(base_out, b1, step, end);
    let r2 = lemma_filename_parts(base_out, b2, step, end);
    let d1 = decimal::digits(b1);
    let d2 = decimal::digits(b2);
    lemma_digits(b1);
    lemma_digits(b2);
    if filename(base_out, b1, step, end) == filename(base_out, b2, step, end) {
        let t = d1 + r1;
        assert(t =~= (head + t).skip(head.len() as int));
        assert(d2 + r2 =~= (head + (d2 + r2)).skip(head.len() as int));
        assert(t == d2 + r2);
        assert(t[d1.len() as int] == '_');
        assert((d2 + r2)[d2.len() as int] == '_');
        if d1.len() < d2.len() {
            assert(d2[d1.len() as int] == '_');
        } else if d2.len() < d1.len() {
            assert(d1[d2.len() as int] == '_');
        }
        assert(d1 =~= t.take(d1.len() as int));
        assert(d2 =~= t.take(d1.len() as int));
    }
}

/// A file that a run writes: the sample of a bracket, or the summary.
pub open spec fn is_sample_file(name: Seq<char>) -> bool {
    "bracket_"@.is_prefix_of(name) && text::has_suffix(name, ".pgn"@) || name == "summary.txt"@
}

/// The paths of the files of `names` that an earlier run wrote, in their order.
pub open spec fn stale_paths(base_out: Seq<char>, names: Seq<Seq<char>>) -> Seq<Seq<char>>
    decreases names.len(),
{
    if names.len() == 0 {
        Seq::empty()
    } else {
        let before = stale_paths(base_out, names.drop_last());
        if is_sample_file(names.last()) {
            before.push(base_out + "/"@ + names.last())
        } else {
            before
        }
    }
}

/// Why a folder that holds `names` is not written to.
pub open spec fn refusal(base_out: Seq<char>, names: Seq<Seq<char>>) -> Seq<char> {
    "Output folder '"@ + base_out + "' already contains "@ + decimal::digits(names.len())
        + " file(s) (e.g. "@ + names[0]
        + "). Refusing to run so previous samples are not mixed with new ones. Choose another \"name\" in the config, empty the folder, or rerun with --overwrite."@
}

/// What to do about the files that are in the output folder.
pub enum OutputPlan {
    /// There are none: write.
    Ready,
    /// Do not run, for this reason.
    Refuse(String),
    /// Remove the files with these paths, then write.
    Remove(Vec<String>),
}

/// Tells the files of earlier runs from others.
fn sample_file(name: &str) -> (r: bool)
    ensures
        r == is_sample_file(name@),
{
    (text::starts_with(name, "bracket_") && text::ends_with(name, ".pgn")) || text::same(
        name,
        "summary.txt",
    )
}

/// Refuses to reuse an output folder that already contains files, unless `overwrite` is set, in
/// which case previous bracket files, and the summary beside them, are to be removed.
pub fn plan_output_dir(base_out: &str, existing: &Vec<String>, overwrite: bool) -> (r: OutputPlan)
    ensures
        match r {
            OutputPlan::Ready => existing@.len() == 0,
            OutputPlan::Refuse(message) => existing@.len() > 0 && !overwrite && message@ == refusal(
                base_out@,
                text::views(existing@),
            ),
            OutputPlan::Remove(paths) => existing@.len() > 0 && overwrite && text::views(paths@)
                == stale_paths(base_out@, text::views(existing@)),
        },
{
    if existing.len() == 0 {
        return OutputPlan::Ready;
    }
    if !overwrite {
        let mut m = "Output folder '".to_owned();
        m.append(base_out);
        m.append("' already contains ");
        decimal::push_number(&mut m, existing.len() as u64);
        m.append(" file(s) (e.g. ");
        m.append(existing[0].as_str());
        m.append(
            "). Refusing to run so previous samples are not mixed with new ones. Choose another \"name\" in the config, empty the folder, or rerun with --overwrite.",
        );
        return OutputPlan::Refuse(m);
    }
    let mut paths: Vec<String> = Vec::new();
    let mut i: usize = 0;
    let ghost names = text::views(existing@);
    assert(text::views(paths@) =~= stale_paths(base_out@, names.take(0)));
    while i < existing.len()
        invariant
            i <= existing@.len(),
            names == text::views(existing@),
            text::views(paths@) == stale_paths(base_out@, names.take(i as int)),
        decreases existing@.len() - i,
    {
        proof {
            assert(names.take(i + 1).drop_last() =~= names.take(i as int));
            assert(names.take(i + 1).last() == existing@[i as int]@);
        }
        if sample_file(existing[i].as_str()) {
            let mut path = base_out.to_owned();
            path.append("/");
            path.append(existing[i].as_str());
            let ghost before = paths@;
            paths.push(path);
            assert(text::views(paths@) =~= text::views(before).push(path@));
        }
        i += 1;
    }
    assert(names.take(i as int) =~= names);
    OutputPlan::Remove(paths)
}

/// The file of a bracket is one that a later run knows for a file of a run.
pub proof fn bracket_files_are_sample_files(base_out: Seq<char>, b: nat, step: nat, end: nat)
    ensures
        exists|name: Seq<char>|
            is_sample_file(name) && #[trigger] (base_out + "/"@ + name) == filename(
                base_out,
                b,
                step,
                end,
            ),
{
    reveal_strlit("/");
    reveal_strlit("bracket_");
    reveal_strlit("/bracket_");
    reveal_strlit(".pgn");
    reveal_strlit("_plus.pgn");
    let path = filename(base_out, b, step, end);
    let name = path.skip(base_out.len() as int + 1);
    assert("/bracket_"@ =~= "/"@ + "bracket_"@);
    assert(path =~= base_out + "/"@ + name);
    assert("bracket_"@ =~= name.subrange(0, "bracket_"@.len() as int));
    assert("_plus.pgn"@.skip(5) =~= ".pgn"@);
    assert(name.skip(name.len() - ".pgn"@.len()) =~= ".pgn"@);
}

/// Only files that a run writes are ever removed, and all of those.
pub proof fn removes_just_sample_files(base_out: Seq<char>, names: Seq<Seq<char>>, name: Seq<char>)
    ensures
        stale_paths(base_out, names).contains(base_out + "/"@ + name) == (names.contains(name)
            && is_sample_file(name)),
    decreases names.len(),
{
    let path = base_out + "/"@ + name;
    let all = stale_paths(base_out, names);
    if names.len() > 0 {
        let front = names.drop_last();
        let last = names.last();
        let before = stale_paths(base_out, front);
        removes_just_sample_files(base_out, front, name);
        assert(path == base_out + "/"@ + last ==> name == last) by {
            let n = base_out.len() + "/"@.len();
            assert(name =~= path.skip(n as int));
            assert(last =~= (base_out + "/"@ + last).skip(n as int));
        }
        assert(names =~= front.push(last));
        assert(names.contains(name) == (front.contains(name) || name == last)) by {
            if front.contains(name) {
                let k = choose|k: int| 0 <= k < front.len() && front[k] == name;
                assert(names[k] == name);
            }
            if name == last {
                assert(names[names.len() - 1] == name);
            }
            if names.contains(name) && name != last {
                let k = choose|k: int| 0 <= k < names.len() && names[k] == name;
                assert(front[k] == name);
            }
        }
        if is_sample_file(last) {
            let mine = base_out + "/"@ + last;
            assert(all == before.push(mine));
            assert(all.contains(path) == (before.contains(path) || path == mine)) by {
                if before.contains(path) {
                    let k = choose|k: int| 0 <= k < before.len() && before[k] == path;
                    assert(all[k] == path);
                }
                if path == mine {
                    assert(all[all.len() - 1] == path);
                }
                if all.contains(path) && path != mine {
                    let k = choose|k: int| 0 <= k < all.len() && all[k] == path;
                    assert(before[k] == path);
                }
            }
        }
    }
}

/// The name of a file below `end` holds the first and the last rating of its bracket; one from
/// `end` on holds the first, and `plus`.
pub proof fn file_names_hold_their_ratings(base_out: Seq<char>, b: nat, step: nat, end: nat)
    requires
        step > 0,
    ensures
        b < end ==> exists|first: Seq<char>, last: Seq<char>|
            decimal::value(first) == b && decimal::value(last) == b + step - 1
                && decimal::all_digits(first) && decimal::all_digits(last) && filename(
                base_out,
                b,
                step,
                end,
            ) == #[trigger] (base_out + "/bracket_"@ + first + "_"@ + last + ".pgn"@),
        b >= end ==> exists|first: Seq<char>|
            decimal::value(first) == b && decimal::all_digits(first) && filename(
                base_out,
                b,
                step,
                end,
            ) == #[trigger] (base_out + "/bracket_"@ + first + "_plus.pgn"@),
{
    let first = decimal::digits(b);
    let last = decimal::digits((b + step - 1) as nat);
    decimal::digits_have_their_value(b);
    decimal::digits_have_their_value((b + step - 1) as nat);
    if b < end {
        assert(filename(base_out, b, step, end) == base_out + "/bracket_"@ + first + "_"@ + last
            + ".pgn"@);
    } else {
        assert(filename(base_out, b, step, end) == base_out + "/bracket_"@ + first
            + "_plus.pgn"@);
    }
}

/// A file is one of a run just if it is the summary, or its name starts with `bracket_` and goes on
/// to `.pgn`.
pub proof fn sample_files_have_these_names(name: Seq<char>, middle: Seq<char>)
    ensures
        is_sample_file("summary.txt"@),
        is_sample_file("bracket_"@ + middle + ".pgn"@),
        is_sample_file(name) ==> name == "summary.txt"@ || (name.len() >= 12 && name
            == "bracket_"@ + name.subrange(8, name.len() - 4) + ".pgn"@),
{
    reveal_strlit("bracket_");
    reveal_strlit(".pgn");
    let one = "bracket_"@ + middle + ".pgn"@;
    assert("bracket_"@ =~= one.subrange(0, 8));
    assert(one.skip(one.len() - 4) =~= ".pgn"@);
    if is_sample_file(name) && name != "summary.txt"@ {
        let n = name.len() as int;
        assert(name.subrange(0, 8) == "bracket_"@);
        assert(name.skip(n - 4) == ".pgn"@);
        assert(name.skip(n - 4)[0] == name[n - 4]);
        if n < 12 {
            assert(name.subrange(0, 8)[n - 4] == name[n - 4]);
            assert("bracket_"@[n - 4] != '.');
        }
        assert(name =~= "bracket_"@ + name.subrange(8, n - 4) + ".pgn"@) by {
            assert(forall|k: int| 0 <= k < 8 ==> name[k] == name.subrange(0, 8)[k]);
            assert(forall|k: int| n - 4 <= k < n ==> name[k] == name.skip(n - 4)[k - (n - 4)]);
        }
    }
}

/// Every path that is removed is that of one of the files there are, and of one of a run; and no
/// more are removed than there are.
pub proof fn only_paths_of_sample_files_are_removed(
    base_out: Seq<char>,
    names: Seq<Seq<char>>,
    i: int,
)
    requires
        0 <= i < stale_paths(base_out, names).len(),
    ensures
        stale_paths(base_out, names).len() <= names.len(),
        exists|k: int|
            0 <= k < names.len() && is_sample_file(#[trigger] names[k]) && stale_paths(
                base_out,
                names,
            )[i] == base_out + "/"@ + names[k],
    decreases names.len(),
{
    if names.len() > 0 {
        let front = names.drop_last();
        let before = stale_paths(base_out, front);
        let all = stale_paths(base_out, names);
        if i < before.len() {
            only_paths_of_sample_files_are_removed(base_out, front, i);
            let k = choose|k: int|
                0 <= k < front.len() && is_sample_file(#[trigger] front[k]) && before[i] == base_out
                    + "/"@ + front[k];
            assert(names[k] == front[k]);
            assert(all[i] == before[i]);
        } else {
            lemma_no_more_paths(base_out, front);
            assert(names[names.len() - 1] == names.last());
            assert(is_sample_file(names[names.len() - 1]));
        }
        lemma_no_more_paths(base_out, names);
    }
}

proof fn lemma_no_more_paths(base_out: Seq<char>, names: Seq<Seq<char>>)
    ensures
        stale_paths(base_out, names).len() <= names.len(),
    decreases names.len(),
{
    if names.len() > 0 {
        lemma_no_more_paths(base_out, names.drop_last());
    }
}

/// The reason for not running names the folder, the number of files in it, and one of them.
pub proof fn refusal_names_what_is_there(base_out: Seq<char>, names: Seq<Seq<char>>)
    requires
        names.len() > 0,
    ensures
        exists|rest: Seq<char>|
            refusal(base_out, names) == #[trigger] ("Output folder '"@ + base_out
                + "' already contains "@ + decimal::digits(names.len()) + " file(s) (e.g. "@
                + names[0] + rest),
{
    let rest =
        "). Refusing to run so previous samples are not mixed with new ones. Choose another \"name\" in the config, empty the folder, or rerun with --overwrite."@;
    assert(refusal(base_out, names) == "Output folder '"@ + base_out + "' already contains "@
        + decimal::digits(names.len()) + " file(s) (e.g. "@ + names[0] + rest);
}

} // verus!
