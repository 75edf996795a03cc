//! The report on a run.

use vstd::prelude::*;
use vstd::string::*;

use crate::config;
use crate::config::{Config, GroupsConfig};
use crate::decimal;
use crate::output;
use crate::reject;
use crate::reject::{Reject, REJECT_COUNT};
use crate::rules;
use crate::rules::{Game, Tally};
use crate::sampler::Sampler;
use crate::text;

verus! {

/// The width of the first column of a table.
pub const LABEL_WIDTH: usize = 42;

/// The width of the second column of a table.
pub const COUNT_WIDTH: usize = 12;

/// A row of a table.
pub open spec fn row(label: Seq<char>, count: nat) -> Seq<char> {
    "  "@ + decimal::left(label, LABEL_WIDTH as nat) + " "@ + decimal::right(
        decimal::digits(count),
        COUNT_WIDTH as nat,
    ) + "\n"@
}

/// The rows of the first `n` filters.
pub open spec fn filter_rows(rejects: Seq<nat>, n: int) -> Seq<char>
    decreases n,
{
    if n <= 0 {
        Seq::empty()
    } else {
        filter_rows(rejects, n - 1) + row(reject::labels()[n - 1], rejects[n - 1])
    }
}

/// The rows of the first `n` brackets.
pub open spec fn bracket_rows(
    groups: GroupsConfig,
    counts: Map<u32, nat>,
    base_out: Seq<char>,
    step: nat,
    n: int,
) -> Seq<char>
    decreases n,
{
    if n <= 0 {
        Seq::empty()
    } else {
        let b = groups.layout()[n - 1];
        bracket_rows(groups, counts, base_out, step, n - 1) + row(
            output::filename(base_out, b as nat, step, groups.end as nat),
            counts[b],
        )
    }
}

/// The games in the first `n` brackets.
pub open spec fn accepted(groups: GroupsConfig, counts: Map<u32, nat>, n: int) -> nat
    decreases n,
{
    if n <= 0 {
        0
    } else {
        accepted(groups, counts, n - 1) + counts[groups.layout()[n - 1]]
    }
}

/// Whether every bracket is full, in words.
pub open spec fn completeness(size: u32, complete: bool) -> Seq<char> {
    if size == 0 {
        "n/a (unlimited size)"@
    } else if complete {
        "yes"@
    } else {
        "NO"@
    }
}

/// What was asked for, and how far the run came. The accepted events and time controls are given
/// as they are to be printed.
pub open spec fn preamble(
    config: Config,
    events: Seq<char>,
    time_controls: Seq<char>,
    games: nat,
    complete: bool,
) -> Seq<char> {
    "=== Sampling summary ===\nSources: "@ + text::joined(
        text::views(config.zstd_database@),
        ", "@,
    ) + "\nEvents accepted: "@ + events + "\nTimeControls accepted: "@ + time_controls
        + "\nMin plies: "@ + decimal::digits(config.groups.min_plies as nat)
        + "\nMax rating delta: "@ + decimal::signed(config.groups.delta as int)
        + "\nPlayer quota: "@ + decimal::digits(config.player.quota as nat) + "\nGames parsed: "@
        + decimal::digits(games) + "\nAll brackets full: "@ + completeness(
        config.groups.size,
        complete,
    ) + "\n\n"@
}

/// The table of the games that were turned down.
pub open spec fn discards(rejects: Seq<nat>) -> Seq<char> {
    "Discards (each game counted under the first filter it failed, in this order):\n"@
        + filter_rows(rejects, REJECT_COUNT as int) + row(
        "Total discarded"@,
        rules::sum(rejects),
    ) + "\n"@
}

/// The table of the games that were taken.
pub open spec fn acceptances(
    groups: GroupsConfig,
    counts: Map<u32, nat>,
    base_out: Seq<char>,
    step: nat,
) -> Seq<char> {
    let n = groups.layout().len() as int;
    "Accepted per bracket:\n"@ + bracket_rows(groups, counts, base_out, step, n) + row(
        "Total accepted"@,
        accepted(groups, counts, n),
    )
}

/// The report on a run.
pub open spec fn report(
    config: Config,
    t: Tally,
    base_out: Seq<char>,
    step: nat,
    games: nat,
    complete: bool,
    events: Seq<char>,
    time_controls: Seq<char>,
) -> Seq<char> {
    preamble(config, events, time_controls, games, complete) + discards(t.rejects) + acceptances(
        config.groups,
        t.counts,
        base_out,
        step,
    )
}

/// Whether every bracket has a file with the given step.
pub open spec fn files_named(groups: GroupsConfig, step: int) -> bool {
    forall|k: int|
        0 <= k < groups.layout().len() && #[trigger] groups.layout()[k] < groups.end ==> 0
            < groups.layout()[k] + step <= u32::MAX
}

/// With the step that the brackets are laid out by, every bracket has a file.
pub proof fn laid_out_brackets_have_files(groups: GroupsConfig)
    requires
        groups.layout_fits(),
    ensures
        files_named(groups, groups.spec_step() as int),
{
    assert forall|k: int|
        0 <= k < groups.layout().len() && #[trigger] groups.layout()[k] < groups.end implies 0
        < groups.layout()[k] + groups.spec_step() <= u32::MAX by {
        assert(groups.bracket_at(k) + groups.spec_step() <= u32::MAX);
        assert(0 <= k * groups.spec_step()) by (nonlinear_arith)
            requires
                0 <= k,
                groups.spec_step() >= 0,
        ;
    }
}

/// One game more in a bracket is one game more in the brackets up to that one.
proof fn lemma_accepted(groups: GroupsConfig, counts: Map<u32, nat>, k: int, n: int)
    requires
        0 <= k < groups.layout().len(),
        0 <= n <= groups.layout().len(),
        counts.dom() == Set::<u32>::full(),
    ensures
        ({
            let b = groups.layout()[k];
            accepted(groups, counts.insert(b, counts[b] + 1), n) == accepted(groups, counts, n)
                + if k < n {
                1nat
            } else {
                0nat
            }
        }),
    decreases n,
{
    if n > 0 {
        lemma_accepted(groups, counts, k, n - 1);
        if k < n - 1 {
            config::brackets_ascend(groups, k, n - 1);
        } else if n - 1 < k {
            config::brackets_ascend(groups, n - 1, k);
        }
    }
}

proof fn lemma_none_accepted(groups: GroupsConfig, n: int)
    ensures
        accepted(groups, Tally::start().counts, n) == 0,
    decreases n,
{
    if n > 0 {
        lemma_none_accepted(groups, n - 1);
    }
}

/// The two totals of the report add up to the games that were looked at.
pub proof fn totals_add_up(config: Config, games: Seq<Game>)
    ensures
        ({
            let t = rules::after_all(config, Tally::start(), games);
            rules::sum(t.rejects) + accepted(
                config.groups,
                t.counts,
                config.groups.layout().len() as int,
            ) == games.len()
        }),
{
    lemma_totals(config, games);
}

proof fn lemma_totals(config: Config, games: Seq<Game>)
    ensures
        ({
            let t = rules::after_all(config, Tally::start(), games);
            &&& rules::sum(t.rejects) + accepted(
                config.groups,
                t.counts,
                config.groups.layout().len() as int,
            ) == games.len()
            &&& t.rejects.len() == REJECT_COUNT
            &&& t.counts.dom() == Set::<u32>::full()
        }),
    decreases games.len(),
{
    let layout = config.groups.layout();
    let n = layout.len() as int;
    if games.len() == 0 {
        rules::lemma_sum_zero(Tally::start().rejects);
        lemma_none_accepted(config.groups, n);
        assert(Tally::start().counts.dom() =~= Set::<u32>::full());
    } else {
        lemma_totals(config, games.drop_last());
        let t = rules::after_all(config, Tally::start(), games.drop_last());
        match rules::verdict(config, t, games.last()) {
            Ok(b) => {
                rules::sampled_game_fits_its_bracket(config, t, games.last());
                let k = choose|k: int| 0 <= k < n && layout[k] == b;
                lemma_accepted(config.groups, t.counts, k, n);
                assert(t.counts.insert(b, t.counts[b] + 1).dom() =~= Set::<u32>::full());
            },
            Err(filter) => {
                rules::lemma_sum_update(t.rejects, filter.rank());
            },
        }
    }
}

/// The `{:?}` form of a list of strings.
pub uninterp spec fn debug_list(list: Seq<Seq<char>>) -> Seq<char>;

/// Prints a list of strings with `std`'s `Debug` for `Vec<String>`, through `format!`. The result
/// is taken to be a function of the strings alone; how it quotes and escapes them is not said.
#[verifier::external_body]
fn debug_strings(list: &Vec<String>) -> (r: String)
    ensures
        r@ == debug_list(text::views(list@)),
{
    format!("{:?}", list)
}

/// Appends a row of a table.
fn push_row(out: &mut String, label: &str, count: u64)
    ensures
        final(out)@ == old(out)@ + row(label@, count as nat),
{
    out.append("  ");
    decimal::push_left(out, label, LABEL_WIDTH);
    out.append(" ");
    let n = decimal::number(count);
    decimal::push_right(out, n.as_str(), COUNT_WIDTH);
    out.append("\n");
    assert(out@ =~= old(out)@ + row(label@, count as nat));
}

fn preamble_text(
    config: &Config,
    events: &str,
    time_controls: &str,
    games: u64,
    complete: bool,
) -> (r: String)
    ensures
        r@ == preamble(*config, events@, time_controls@, games as nat, complete),
{
    let mut s = "=== Sampling summary ===\nSources: ".to_owned();
    let sources = text::join(&config.zstd_database, ", ");
    s.append(sources.as_str());
    s.append("\nEvents accepted: ");
    s.append(events);
    s.append("\nTimeControls accepted: ");
    s.append(time_controls);
    s.append("\nMin plies: ");
    decimal::push_number(&mut s, config.groups.min_plies as u64);
    s.append("\nMax rating delta: ");
    decimal::push_signed(&mut s, config.groups.delta);
    s.append("\nPlayer quota: ");
    decimal::push_number(&mut s, config.player.quota as u64);
    s.append("\nGames parsed: ");
    decimal::push_number(&mut s, games);
    s.append("\nAll brackets full: ");
    s.append(
        if config.groups.size == 0 {
            "n/a (unlimited size)"
        } else if complete {
            "yes"
        } else {
            "NO"
        },
    );
    s.append("\n\n");
    s
}

/// The sum of the first `n` numbers is no more than that of all.
proof fn lemma_sum_grows(s: Seq<nat>, n: int)
    requires
        0 <= n <= s.len(),
    ensures
        rules::sum(s.take(n)) <= rules::sum(s),
    decreases s.len(),
{
    if n == s.len() {
        assert(s.take(n) =~= s);
    } else {
        lemma_sum_grows(s.drop_last(), n);
        assert(s.drop_last().take(n) =~= s.take(n));
    }
}

/// Adds up the games that were turned down, or gives `None` if there are too many for 64 bits.
pub fn total_rejected(sampler: &Sampler) -> (r: Option<u64>)
    requires
        sampler.wf(),
    ensures
        r == (if rules::sum(sampler.tally().rejects) <= u64::MAX {
            Some(rules::sum(sampler.tally().rejects) as u64)
        } else {
            None::<u64>
        }),
{
    let mut total: u64 = 0;
    let mut i: usize = 0;
    let ghost rejects = sampler.tally().rejects;
    proof {
        sampler.lemma_reject_count();
    }
    while i < REJECT_COUNT
        invariant
            i <= REJECT_COUNT,
            rejects == sampler.tally().rejects,
            rejects.len() == REJECT_COUNT,
            total == rules::sum(rejects.take(i as int)),
        decreases REJECT_COUNT - i,
    {
        let n: u64 = sampler.rejected(i);
        proof {
            assert(rejects.take(i + 1).drop_last() =~= rejects.take(i as int));
            lemma_sum_grows(rejects, i + 1);
        }
        match total.checked_add(n) {
            Some(sum) => {
                total = sum;
            },
            None => {
                return None;
            },
        }
        i += 1;
    }
    assert(rejects.take(i as int) =~= rejects);
    Some(total)
}

fn discards_text(sampler: &Sampler) -> (r: String)
    requires
        sampler.wf(),
        rules::sum(sampler.tally().rejects) <= u64::MAX,
    ensures
        r@ == discards(sampler.tally().rejects),
{
    let ghost rejects = sampler.tally().rejects;
    let mut s =
        "Discards (each game counted under the first filter it failed, in this order):\n".to_owned();
    let ghost head = s@;
    let mut i: usize = 0;
    assert(s@ =~= head + filter_rows(rejects, 0));
    while i < REJECT_COUNT
        invariant
            i <= REJECT_COUNT,
            rejects == sampler.tally().rejects,
            s@ == head + filter_rows(rejects, i as int),
        decreases REJECT_COUNT - i,
    {
        push_row(&mut s, reject::label(i), sampler.rejected(i));
        i += 1;
        assert(s@ =~= head + filter_rows(rejects, i as int));
    }
    let total: u64 = match total_rejected(sampler) {
        Some(total) => total,
        None => 0,
    };
    push_row(&mut s, "Total discarded", total);
    s.append("\n");
    s
}

fn acceptances_text(sampler: &Sampler, base_out: &str, step: u32) -> (r: String)
    requires
        sampler.wf(),
        files_named(sampler.spec_config().groups, step as int),
    ensures
        r@ == acceptances(
            sampler.spec_config().groups,
            sampler.tally().counts,
            base_out@,
            step as nat,
        ),
{
    let groups = &sampler.config().groups;
    let brackets = sampler.brackets();
    let ghost counts = sampler.tally().counts;
    let mut s = "Accepted per bracket:\n".to_owned();
    let ghost head = s@;
    let mut total: u64 = 0;
    let mut i: usize = 0;
    proof {
        lemma_few_brackets(*groups);
    }
    assert(s@ =~= head + bracket_rows(*groups, counts, base_out@, step as nat, 0));
    while i < brackets.len()
        invariant
            i <= brackets@.len(),
            brackets@.len() <= 0x1_0000_0000,
            brackets@ == groups.layout(),
            *groups == sampler.spec_config().groups,
            counts == sampler.tally().counts,
            files_named(*groups, step as int),
            total == accepted(*groups, counts, i as int),
            total <= i * 0xffff_ffff,
            s@ == head + bracket_rows(*groups, counts, base_out@, step as nat, i as int),
        decreases brackets@.len() - i,
    {
        let b: u32 = brackets[i];
        let count: u32 = sampler.count(b);
        assert(groups.layout()[i as int] == b);
        total = total + count as u64;
        let file = output::bracket_filename(base_out, b, step, groups.end);
        push_row(&mut s, file.as_str(), count as u64);
        i += 1;
        assert(s@ =~= head + bracket_rows(*groups, counts, base_out@, step as nat, i as int));
    }
    push_row(&mut s, "Total accepted", total);
    s
}

/// There are no more brackets than ratings of 32 bits.
proof fn lemma_few_brackets(g: GroupsConfig)
    ensures
        g.layout().len() <= 0x1_0000_0000,
{
    if g.start <= g.end {
        let span = g.end - g.start;
        let step = g.spec_step() as int;
        vstd::arithmetic::div_mod::lemma_div_is_ordered_by_denominator(span, 1, step);
    }
}

/// Writes the report, given the accepted events and time controls as they are to be printed.
pub fn summary_text(
    sampler: &Sampler,
    base_out: &str,
    step: u32,
    games_processed: u64,
    complete: bool,
    events: &str,
    time_controls: &str,
) -> (r: String)
    requires
        sampler.wf(),
        rules::sum(sampler.tally().rejects) <= u64::MAX,
        files_named(sampler.spec_config().groups, step as int),
    ensures
        r@ == report(
            sampler.spec_config(),
            sampler.tally(),
            base_out@,
            step as nat,
            games_processed as nat,
            complete,
            events@,
            time_controls@,
        ),
{
    let mut s = preamble_text(sampler.config(), events, time_controls, games_processed, complete);
    let d = discards_text(sampler);
    s.append(d.as_str());
    let a = acceptances_text(sampler, base_out, step);
    s.append(a.as_str());
    s
}

/// Writes the report.
pub fn build_summary(
    sampler: &Sampler,
    base_out: &str,
    step: u32,
    games_processed: u64,
    complete: bool,
) -> (r: String)
    requires
        sampler.wf(),
        rules::sum(sampler.tally().rejects) <= u64::MAX,
        files_named(sampler.spec_config().groups, step as int),
    ensures
        r@ == report(
            sampler.spec_config(),
            sampler.tally(),
            base_out@,
            step as nat,
            games_processed as nat,
            complete,
            debug_list(text::views(sampler.spec_config().groups.events@)),
            debug_list(text::views(sampler.spec_config().groups.time_controls@)),
        ),
{
    let events = debug_strings(&sampler.config().groups.events);
    let time_controls = debug_strings(&sampler.config().groups.time_controls);
    summary_text(
        sampler,
        base_out,
        step,
        games_processed,
        complete,
        events.as_str(),
        time_controls.as_str(),
    )
}

/// A row of a table is its label, from the third character on, and its count at the right, ended by
/// a line feed, with spaces between; it is as wide as every other, but for labels and counts that
/// are wider than their columns.
pub proof fn rows_hold_their_label_and_count(label: Seq<char>, count: nat)
    requires
        label.len() <= 42,
        decimal::digits(count).len() <= 12,
    ensures
        ({
            let r = row(label, count);
            let d = decimal::digits(count);
            &&& r.len() == 58
            &&& r.subrange(2, 2 + label.len() as int) == label
            &&& r.subrange(57 - d.len(), 57) == d
            &&& r[57] == '\n'
            &&& r[0] == ' ' && r[1] == ' '
            &&& forall|k: int| 2 + label.len() <= k < 57 - d.len() ==> #[trigger] r[k] == ' '
        }),
{
    reveal_strlit("  ");
    reveal_strlit(" ");
    reveal_strlit("\n");
    let d = decimal::digits(count);
    let r = row(label, count);
    decimal::columns_hold_their_text(label, 42);
    decimal::columns_hold_their_text(d, 12);
    let l = decimal::left(label, 42);
    let c = decimal::right(d, 12);
    assert(r.subrange(2, 2 + label.len() as int) =~= label) by {
        assert(l.take(label.len() as int) == label);
        assert(forall|k: int|
            0 <= k < label.len() ==> r.subrange(2, 2 + label.len() as int)[k] == #[trigger] l.take(
                label.len() as int,
            )[k]);
    }
    let e = c.skip(c.len() - d.len());
    assert(r.subrange(57 - d.len(), 57) =~= d) by {
        assert(forall|k: int|
            0 <= k < d.len() ==> r.subrange(57 - d.len(), 57)[k] == #[trigger] e[k]);
    }
    assert forall|k: int| 2 + label.len() <= k < 57 - d.len() implies #[trigger] r[k] == ' ' by {
        if k < 44 {
            assert(r[k] == l[k - 2]);
        } else if k > 44 {
            assert(r[k] == c[k - 45]);
        }
    }
}

proof fn lemma_filter_row(rejects: Seq<nat>, i: int, n: int) -> (r: (Seq<char>, Seq<char>))
    requires
        0 <= i < n,
    ensures
        filter_rows(rejects, n) == r.0 + row(reject::labels()[i], rejects[i]) + r.1,
    decreases n,
{
    let x = row(reject::labels()[i], rejects[i]);
    if i == n - 1 {
        let pre = filter_rows(rejects, n - 1);
        assert(filter_rows(rejects, n) =~= pre + x + Seq::<char>::empty());
        (pre, Seq::empty())
    } else {
        let (pre, post) = lemma_filter_row(rejects, i, n - 1);
        let last = row(reject::labels()[n - 1], rejects[n - 1]);
        assert(filter_rows(rejects, n) =~= pre + x + (post + last));
        (pre, post + last)
    }
}

proof fn lemma_bracket_row(
    groups: GroupsConfig,
    counts: Map<u32, nat>,
    base_out: Seq<char>,
    step: nat,
    i: int,
    n: int,
) -> (r: (Seq<char>, Seq<char>))
    requires
        0 <= i < n,
    ensures
        bracket_rows(groups, counts, base_out, step, n) == r.0 + row(
            output::filename(base_out, groups.layout()[i] as nat, step, groups.end as nat),
            counts[groups.layout()[i]],
        ) + r.1,
    decreases n,
{
    let b = groups.layout()[i];
    let x = row(output::filename(base_out, b as nat, step, groups.end as nat), counts[b]);
    let all = bracket_rows(groups, counts, base_out, step, n);
    let front = bracket_rows(groups, counts, base_out, step, n - 1);
    if i == n - 1 {
        assert(all =~= front + x + Seq::<char>::empty());
        (front, Seq::empty())
    } else {
        let (pre, post) = lemma_bracket_row(groups, counts, base_out, step, i, n - 1);
        let c = groups.layout()[n - 1];
        let last = row(output::filename(base_out, c as nat, step, groups.end as nat), counts[c]);
        assert(all =~= pre + x + (post + last));
        (pre, post + last)
    }
}

/// What stands in the middle of a text stands in the middle of every text around it.
proof fn lemma_middle(
    a: Seq<char>,
    b: Seq<char>,
    p: Seq<char>,
    x: Seq<char>,
    q: Seq<char>,
    c: Seq<char>,
    d: Seq<char>,
    e: Seq<char>,
)
    ensures
        a + (b + (p + x + q) + c + d) + e == (a + b + p) + x + (q + c + d + e),
        a + (b + (p + x + q) + c) == (a + b + p) + x + (q + c),
        a + (b + p + x + c) + (d + q + e) == (a + b + p) + x + (c + d + q + e),
        a + (b + p + x + c) + (d + q + e) == (a + b + p + x + c + d + q) + e,
{
    assert(a + (b + (p + x + q) + c + d) + e =~= (a + b + p) + x + (q + c + d + e));
    assert(a + (b + (p + x + q) + c) =~= (a + b + p) + x + (q + c));
    assert(a + (b + p + x + c) + (d + q + e) =~= (a + b + p) + x + (c + d + q + e));
    assert(a + (b + p + x + c) + (d + q + e) =~= (a + b + p + x + c + d + q) + e);
}

/// The report has a row for every filter, with its label and the number of games that it turned
/// down.
pub proof fn report_has_a_row_for_every_filter(
    config: Config,
    t: Tally,
    base_out: Seq<char>,
    step: nat,
    games: nat,
    complete: bool,
    events: Seq<char>,
    time_controls: Seq<char>,
    filter: Reject,
)
    ensures
        exists|pre: Seq<char>, post: Seq<char>|
            report(config, t, base_out, step, games, complete, events, time_controls)
                == #[trigger] (pre + row(
                reject::labels()[filter.rank()],
                t.rejects[filter.rank()],
            ) + post),
{
    let all = report(config, t, base_out, step, games, complete, events, time_controls);
    let x = row(reject::labels()[filter.rank()], t.rejects[filter.rank()]);
    let (p, q) = lemma_filter_row(t.rejects, filter.rank(), REJECT_COUNT as int);
    let head = preamble(config, events, time_controls, games, complete);
    let title =
        "Discards (each game counted under the first filter it failed, in this order):\n"@;
    let total = row("Total discarded"@, rules::sum(t.rejects));
    let rest = acceptances(config.groups, t.counts, base_out, step);
    lemma_middle(head, title, p, x, q, total, "\n"@, rest);
    assert(all == (head + title + p) + x + (q + total + "\n"@ + rest));
}

/// The report has a row for every bracket, with its file and the number of its games.
pub proof fn report_has_a_row_for_every_bracket(
    config: Config,
    t: Tally,
    base_out: Seq<char>,
    step: nat,
    games: nat,
    complete: bool,
    events: Seq<char>,
    time_controls: Seq<char>,
    i: int,
)
    requires
        0 <= i < config.groups.layout().len(),
    ensures
        exists|pre: Seq<char>, post: Seq<char>|
            report(config, t, base_out, step, games, complete, events, time_controls)
                == #[trigger] (pre + row(
                output::filename(
                    base_out,
                    config.groups.layout()[i] as nat,
                    step,
                    config.groups.end as nat,
                ),
                t.counts[config.groups.layout()[i]],
            ) + post),
{
    let g = config.groups;
    let n = g.layout().len() as int;
    let b = g.layout()[i];
    let all = report(config, t, base_out, step, games, complete, events, time_controls);
    let x = row(output::filename(base_out, b as nat, step, g.end as nat), t.counts[b]);
    let (p, q) = lemma_bracket_row(g, t.counts, base_out, step, i, n);
    let head = preamble(config, events, time_controls, games, complete) + discards(t.rejects);
    let title = "Accepted per bracket:\n"@;
    let total = row("Total accepted"@, accepted(g, t.counts, n));
    lemma_middle(head, title, p, x, q, total, Seq::empty(), Seq::empty());
    assert(all == (head + title + p) + x + (q + total));
}

/// The report ends with the number of games in the sample, and has the number of those that were
/// turned down.
pub proof fn report_gives_the_totals(
    config: Config,
    looked_at: Seq<Game>,
    base_out: Seq<char>,
    step: nat,
    games: nat,
    complete: bool,
    events: Seq<char>,
    time_controls: Seq<char>,
)
    ensures
        ({
            let t = rules::after_all(config, Tally::start(), looked_at);
            let taken = rules::sample(config, looked_at).len();
            let all = report(config, t, base_out, step, games, complete, events, time_controls);
            &&& exists|pre: Seq<char>| all == #[trigger] (pre + row("Total accepted"@, taken))
            &&& exists|pre: Seq<char>, post: Seq<char>|
                all == #[trigger] (pre + row(
                    "Total discarded"@,
                    (looked_at.len() - taken) as nat,
                ) + post)
        }),
{
    let g = config.groups;
    let n = g.layout().len() as int;
    let t = rules::after_all(config, Tally::start(), looked_at);
    let taken = rules::sample(config, looked_at).len();
    let all = report(config, t, base_out, step, games, complete, events, time_controls);
    rules::every_game_is_counted_once(config, looked_at);
    totals_add_up(config, looked_at);
    let head = preamble(config, events, time_controls, games, complete);
    let title =
        "Discards (each game counted under the first filter it failed, in this order):\n"@;
    let rows = filter_rows(t.rejects, REJECT_COUNT as int);
    let x = row("Total discarded"@, (looked_at.len() - taken) as nat);
    let other = "Accepted per bracket:\n"@;
    let brackets = bracket_rows(g, t.counts, base_out, step, n);
    let y = row("Total accepted"@, taken);
    assert(accepted(g, t.counts, n) == taken);
    assert(rules::sum(t.rejects) == (looked_at.len() - taken) as nat);
    lemma_middle(head, title, rows, x, brackets, "\n"@, other, y);
    assert(all == (head + title + rows) + x + ("\n"@ + other + brackets + y));
    assert(all == (head + title + rows + x + "\n"@ + other + brackets) + y);
}

/// The report starts with what was asked for and how far the run came, one thing to a line.
pub proof fn report_starts_with_what_was_asked_for(
    config: Config,
    t: Tally,
    base_out: Seq<char>,
    step: nat,
    games: nat,
    complete: bool,
    events: Seq<char>,
    time_controls: Seq<char>,
)
    ensures
        ({
            let end = "\n"@;
            let all = report(config, t, base_out, step, games, complete, events, time_controls);
            let full = if config.groups.size == 0 {
                "n/a (unlimited size)"@
            } else if complete {
                "yes"@
            } else {
                "NO"@
            };
            let lines = ("=== Sampling summary ==="@ + end) + ("Sources: "@ + text::joined(
                text::views(config.zstd_database@),
                ", "@,
            ) + end) + ("Events accepted: "@ + events + end) + ("TimeControls accepted: "@
                + time_controls + end) + ("Min plies: "@ + decimal::digits(
                config.groups.min_plies as nat,
            ) + end) + ("Max rating delta: "@ + decimal::signed(config.groups.delta as int) + end)
                + ("Player quota: "@ + decimal::digits(config.player.quota as nat) + end) + (
            "Games parsed: "@ + decimal::digits(games) + end) + ("All brackets full: "@ + full
                + end) + end;
            lines.len() <= all.len() && all.take(lines.len() as int) == lines
        }),
{
    let end = "\n"@;
    reveal_strlit("\n");
    reveal_strlit("\n\n");
    reveal_strlit("=== Sampling summary ===");
    reveal_strlit("Sources: ");
    reveal_strlit("=== Sampling summary ===\nSources: ");
    assert("=== Sampling summary ===\nSources: "@ =~= "=== Sampling summary ==="@ + end
        + "Sources: "@);
    reveal_strlit("Events accepted: ");
    reveal_strlit("\nEvents accepted: ");
    assert("\nEvents accepted: "@ =~= end + "Events accepted: "@);
    reveal_strlit("TimeControls accepted: ");
    reveal_strlit("\nTimeControls accepted: ");
    assert("\nTimeControls accepted: "@ =~= end + "TimeControls accepted: "@);
    reveal_strlit("Min plies: ");
    reveal_strlit("\nMin plies: ");
    assert("\nMin plies: "@ =~= end + "Min plies: "@);
    reveal_strlit("Max rating delta: ");
    reveal_strlit("\nMax rating delta: ");
    assert("\nMax rating delta: "@ =~= end + "Max rating delta: "@);
    reveal_strlit("Player quota: ");
    reveal_strlit("\nPlayer quota: ");
    assert("\nPlayer quota: "@ =~= end + "Player quota: "@);
    reveal_strlit("Games parsed: ");
    reveal_strlit("\nGames parsed: ");
    assert("\nGames parsed: "@ =~= end + "Games parsed: "@);
    reveal_strlit("All brackets full: ");
    reveal_strlit("\nAll brackets full: ");
    assert("\nAll brackets full: "@ =~= end + "All brackets full: "@);
    assert("\n\n"@ =~= end + end);
    let p = preamble(config, events, time_controls, games, complete);
    let full = completeness(config.groups.size, complete);
    let lines = ("=== Sampling summary ==="@ + end) + ("Sources: "@ + text::joined(
        text::views(config.zstd_database@),
        ", "@,
    ) + end) + ("Events accepted: "@ + events + end) + ("TimeControls accepted: "@ + time_controls
        + end) + ("Min plies: "@ + decimal::digits(config.groups.min_plies as nat) + end) + (
    "Max rating delta: "@ + decimal::signed(config.groups.delta as int) + end) + ("Player quota: "@
        + decimal::digits(config.player.quota as nat) + end) + ("Games parsed: "@
        + decimal::digits(games) + end) + ("All brackets full: "@ + full + end) + end;
    assert(p =~= lines);
    let all = report(config, t, base_out, step, games, complete, events, time_controls);
    assert(all.take(p.len() as int) =~= p);
}

} // verus!
