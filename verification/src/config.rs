//! What a run is asked to do.

use vstd::prelude::*;
use vstd::string::*;

use crate::text;

verus! {

/// The interval of the brackets where the configuration gives none.
pub const DEFAULT_INTERVAL: u32 = 200;

/// Which games are accepted, and how they are sorted into brackets.
pub struct GroupsConfig {
    /// Accepted Event header values (exact match). Empty = any.
    pub events: Vec<String>,
    /// Accepted TimeControl header values (exact match). Empty = any.
    pub time_controls: Vec<String>,
    /// Minimum number of plies (half-moves) in the movetext. 0 = no minimum.
    pub min_plies: u32,
    /// The rating at which the first bracket starts.
    pub start: u32,
    /// The rating from which on players go to the open bracket, where a bracket starts there.
    pub end: u32,
    /// The rating points that a bracket spans. 0 = `DEFAULT_INTERVAL`.
    pub interval: u32,
    /// The largest accepted rating difference between the two players.
    pub delta: i32,
    /// How many games are taken per bracket. 0 = any number.
    pub size: u32,
}

/// Which players are accepted.
pub struct PlayerConfig {
    /// How many times a player may appear. 0 = any number.
    pub quota: u32,
    /// Titles and names whose games are left out.
    pub banned_string: Vec<String>,
    /// Titles of which one of the players must have one. Empty = no such demand.
    pub required_string: Vec<String>,
}

/// What a run is asked to do.
pub struct Config {
    /// Where the games come from: URLs and paths of files, read one after the other.
    pub zstd_database: Vec<String>,
    /// The folder inside `output` that the samples go to.
    pub name: Option<String>,
    pub groups: GroupsConfig,
    pub player: PlayerConfig,
}

impl GroupsConfig {
    /// The rating points from one bracket to the next.
    pub open spec fn spec_step(self) -> u32 {
        if self.interval == 0 {
            DEFAULT_INTERVAL
        } else {
            self.interval
        }
    }

    /// Where bracket number `k` starts.
    pub open spec fn bracket_at(self, k: int) -> int {
        self.start + k * self.spec_step()
    }

    /// How many brackets there are: those that start at `end` or before.
    pub open spec fn bracket_total(self) -> nat {
        if self.start > self.end {
            0
        } else {
            ((self.end - self.start) / self.spec_step() as int + 1) as nat
        }
    }

    /// Where the brackets start, in ascending order.
    pub open spec fn layout(self) -> Seq<u32> {
        Seq::new(self.bracket_total(), |k: int| self.bracket_at(k) as u32)
    }

    /// Whether the end of every bracket is a number of 32 bits too.
    pub open spec fn layout_fits(self) -> bool {
        forall|k: int|
            0 <= k < self.bracket_total() ==> #[trigger] self.bracket_at(k) + self.spec_step()
                <= u32::MAX
    }

    /// The rating points from one bracket to the next.
    pub fn step(&self) -> (r: u32)
        ensures
            r == self.spec_step(),
            r > 0,
    {
        if self.interval == 0 {
            DEFAULT_INTERVAL
        } else {
            self.interval
        }
    }

    /// Tells whether a bracket starts at `end`.
    pub fn has_end_bracket(&self) -> (r: bool)
        ensures
            r == self.layout().contains(self.end),
    {
        let step: u32 = self.step();
        if self.start > self.end {
            return false;
        }
        let span: u32 = self.end - self.start;
        proof {
            let q = span as int / step as int;
            vstd::arithmetic::div_mod::lemma_fundamental_div_mod(span as int, step as int);
            vstd::arithmetic::mul::lemma_mul_is_commutative(step as int, q);
            if span % step == 0 {
                lemma_laid_out(*self, q);
                assert(self.layout()[q] == self.end);
            } else if self.layout().contains(self.end) {
                let k = choose|k: int| 0 <= k < self.layout().len() && self.layout()[k] == self.end;
                lemma_multiples(k, step as int, span as int);
                assert(0 <= k * step) by (nonlinear_arith)
                    requires
                        0 <= k,
                        0 < step,
                ;
                vstd::arithmetic::div_mod::lemma_mod_multiples_basic(k, step as int);
            }
        }
        span % step == 0
    }

    /// How far the progress of a bracket goes: to its size, or, if it has none, on and on.
    pub fn progress_length(&self) -> (r: u64)
        ensures
            r == (if self.size == 0 {
                u64::MAX
            } else {
                self.size as u64
            }),
    {
        if self.size == 0 {
            u64::MAX
        } else {
            self.size as u64
        }
    }

    /// Tells whether the brackets can be laid out.
    pub fn can_lay_out(&self) -> (r: bool)
        ensures
            r == self.layout_fits(),
    {
        if self.start > self.end {
            return true;
        }
        let step: u64 = self.step() as u64;
        let span: u64 = (self.end - self.start) as u64;
        let last: u64 = span / step;
        proof {
            let s = step as int;
            assert(last * s <= span) by {
                lemma_multiples(last as int, s, span as int);
            }
            assert forall|k: int| 0 <= k < self.bracket_total() implies #[trigger] self.bracket_at(
                k,
            ) <= self.bracket_at(last as int) by {
                assert(k * s <= last * s) by (nonlinear_arith)
                    requires
                        k <= last,
                        s > 0,
                ;
            }
        }
        let r = self.start as u64 + last * step + step <= u32::MAX as u64;
        assert(r == (self.bracket_at(last as int) + self.spec_step() <= u32::MAX));
        r
    }

    /// Lays out the brackets.
    pub fn bracket_starts(&self) -> (r: Vec<u32>)
        requires
            self.layout_fits(),
        ensures
            r@ == self.layout(),
    {
        let step: u32 = self.step();
        let mut r: Vec<u32> = Vec::new();
        let mut b: u32 = self.start;
        while b <= self.end
            invariant
                self.layout_fits(),
                step == self.spec_step(),
                step > 0,
                b == self.bracket_at(r@.len() as int),
                r@.len() <= self.bracket_total(),
                forall|k: int| 0 <= k < r@.len() ==> #[trigger] r@[k] == self.bracket_at(k),
            decreases self.end + step - b,
        {
            proof {
                lemma_multiples(r@.len() as int, step as int, self.end - self.start);
                let n = r@.len() as int;
                assert((n + 1) * step == n * step + step) by (nonlinear_arith);
                assert(self.bracket_at(n) + self.spec_step() <= u32::MAX);
            }
            r.push(b);
            b += step;
        }
        proof {
            if self.start <= self.end {
                lemma_multiples(r@.len() as int, step as int, self.end - self.start);
            }
            assert(r@ =~= self.layout());
        }
        r
    }
}

proof fn lemma_multiples(k: int, step: int, x: int)
    requires
        step > 0,
        x >= 0,
    ensures
        (k * step <= x) == (k <= x / step),
{
    let q = x / step;
    assert(x == step * q + x % step && 0 <= x % step < step) by {
        vstd::arithmetic::div_mod::lemma_fundamental_div_mod(x, step);
    }
    if k <= q {
        assert(k * step <= q * step) by (nonlinear_arith)
            requires
                k <= q,
                step > 0,
        ;
        assert(q * step == step * q) by (nonlinear_arith);
    } else {
        assert(k * step >= (q + 1) * step) by (nonlinear_arith)
            requires
                k >= q + 1,
                step > 0,
        ;
        assert((q + 1) * step == step * q + step) by (nonlinear_arith);
    }
}

/// The brackets start at different ratings, none of them above `end`.
pub proof fn brackets_ascend(g: GroupsConfig, i: int, j: int)
    requires
        0 <= i < j < g.layout().len(),
    ensures
        g.start <= g.layout()[i] < g.layout()[j] <= g.end,
        g.layout()[i] == g.bracket_at(i),
        g.layout()[j] == g.bracket_at(j),
{
    let step = g.spec_step() as int;
    lemma_multiples(i, step, g.end - g.start);
    lemma_multiples(j, step, g.end - g.start);
    assert(0 <= i * step < j * step) by (nonlinear_arith)
        requires
            0 <= i < j,
            step > 0,
    ;
}

/// Every multiple of the step behind `start` that is not above `end` is the start of a bracket.
pub proof fn lemma_laid_out(g: GroupsConfig, k: int)
    requires
        0 <= k,
        g.bracket_at(k) <= g.end,
        g.start <= g.end,
    ensures
        k < g.layout().len(),
        g.layout()[k] == g.bracket_at(k),
{
    let step = g.spec_step() as int;
    lemma_multiples(k, step, g.end - g.start);
    assert(0 <= k * step) by (nonlinear_arith)
        requires
            0 <= k,
            step > 0,
    ;
}

/// Every rating from `start` to `end` is in the interval of exactly one bracket.
pub proof fn brackets_tile_the_range(g: GroupsConfig, rating: int)
    requires
        g.start <= rating <= g.end,
    ensures
        exists|k: int| #[trigger]
            g.bracket_at(k) <= rating < g.bracket_at(k) + g.spec_step() && 0 <= k
                < g.bracket_total(),
        forall|j: int, k: int|
            #![trigger g.bracket_at(j), g.bracket_at(k)]
            g.bracket_at(j) <= rating < g.bracket_at(j) + g.spec_step() && g.bracket_at(k)
                <= rating < g.bracket_at(k) + g.spec_step() ==> j == k,
{
    let step = g.spec_step() as int;
    let k = (rating - g.start) / step;
    lemma_multiples(k, step, rating - g.start);
    lemma_multiples(k + 1, step, rating - g.start);
    lemma_multiples(k, step, g.end - g.start);
    assert((k + 1) * step == k * step + step) by (nonlinear_arith);
    assert(k >= 0) by {
        lemma_multiples(0, step, rating - g.start);
    }
    assert(g.bracket_at(k) <= rating < g.bracket_at(k) + g.spec_step());
    assert forall|j: int, m: int|
        #![trigger g.bracket_at(j), g.bracket_at(m)]
        g.bracket_at(j) <= rating < g.bracket_at(j) + g.spec_step() && g.bracket_at(m) <= rating
            < g.bracket_at(m) + g.spec_step() implies j == m by {
        assert(j * step < m * step + step && m * step < j * step + step);
        assert(j == m) by (nonlinear_arith)
            requires
                j * step < m * step + step,
                m * step < j * step + step,
                step > 0,
        ;
    }
}

impl Config {
    /// The folder that the samples go to.
    pub open spec fn spec_output_dir(self) -> Seq<char> {
        match self.name {
            Some(name) => if name@.len() > 0 {
                "output/"@ + name@
            } else {
                "output"@
            },
            None => "output"@,
        }
    }

    /// The folder that the samples go to.
    pub fn output_dir(&self) -> (r: String)
        ensures
            r@ == self.spec_output_dir(),
    {
        match &self.name {
            Some(name) => if !name.as_str().is_empty() {
                let mut r = "output/".to_owned();
                r.append(name.as_str());
                r
            } else {
                "output".to_owned()
            },
            None => "output".to_owned(),
        }
    }
}

/// The configuration file to read: the one asked for, but where that is the default one, the one
/// beside the program, if there is one.
pub fn config_path(asked_for: &str, beside_program: Option<String>) -> (r: String)
    ensures
        r@ == (match beside_program {
            Some(path) => if asked_for@ == "config.json"@ {
                path@
            } else {
                asked_for@
            },
            None => asked_for@,
        }),
{
    match beside_program {
        Some(path) => if text::same(asked_for, "config.json") {
            path
        } else {
            asked_for.to_owned()
        },
        None => asked_for.to_owned(),
    }
}

/// Tells a source that is fetched over HTTP from a file.
pub fn is_remote(source: &str) -> (r: bool)
    ensures
        r == ("http://"@.is_prefix_of(source@) || "https://"@.is_prefix_of(source@)),
{
    text::starts_with(source, "http://") || text::starts_with(source, "https://")
}

/// A bracket starts at `b` just if `b` is some spans of 200 rating points, or of the interval that
/// is asked for, behind `start`, and not behind `end`.
pub proof fn brackets_are_steps_from_start(g: GroupsConfig, b: u32)
    ensures
        ({
            let span = if g.interval == 0 {
                200int
            } else {
                g.interval as int
            };
            g.layout().contains(b) <==> g.start <= b <= g.end && (b - g.start) % span == 0
        }),
{
    let step = g.spec_step() as int;
    if g.start <= b <= g.end && (b - g.start) % step == 0 {
        let k = (b - g.start) / step;
        vstd::arithmetic::div_mod::lemma_fundamental_div_mod(b - g.start, step);
        vstd::arithmetic::mul::lemma_mul_is_commutative(step, k);
        assert(k >= 0) by (nonlinear_arith)
            requires
                k == (b - g.start) / step,
                b - g.start >= 0,
                step > 0,
        ;
        lemma_laid_out(g, k);
        assert(g.layout()[k] == b);
    }
    if g.layout().contains(b) {
        let k = choose|k: int| 0 <= k < g.layout().len() && g.layout()[k] == b;
        lemma_multiples(k, step, g.end - g.start);
        assert(0 <= k * step) by (nonlinear_arith)
            requires
                0 <= k,
                step > 0,
        ;
        vstd::arithmetic::div_mod::lemma_mod_multiples_basic(k, step);
    }
}

/// The brackets can be laid out just if every one of them ends at a number of 32 bits.
pub proof fn layouts_that_fit(g: GroupsConfig, k: int)
    requires
        g.layout_fits(),
        0 <= k < g.layout().len(),
    ensures
        g.layout()[k] + g.spec_step() <= u32::MAX,
        g.spec_step() == (if g.interval == 0 {
            200u32
        } else {
            g.interval
        }),
{
    lemma_multiples(k, g.spec_step() as int, g.end - g.start);
    assert(0 <= k * g.spec_step()) by (nonlinear_arith)
        requires
            0 <= k,
            g.spec_step() >= 0,
    ;
    assert(g.bracket_at(k) + g.spec_step() <= u32::MAX);
}

/// Where `end` and a step are a number of 32 bits, the brackets can be laid out.
pub proof fn ordinary_layouts_fit(g: GroupsConfig)
    requires
        g.end + g.spec_step() <= u32::MAX,
    ensures
        g.layout_fits(),
{
    assert forall|k: int| 0 <= k < g.bracket_total() implies #[trigger] g.bracket_at(k)
        + g.spec_step() <= u32::MAX by {
        lemma_multiples(k, g.spec_step() as int, g.end - g.start);
    }
}

/// Samples go to `output`, or to the folder inside it that is named.
pub proof fn samples_go_inside_output(config: Config)
    ensures
        config.name is None ==> config.spec_output_dir() == seq!['o', 'u', 't', 'p', 'u', 't'],
        config.name matches Some(name) ==> config.spec_output_dir() == (if name@.len() == 0 {
            seq!['o', 'u', 't', 'p', 'u', 't']
        } else {
            seq!['o', 'u', 't', 'p', 'u', 't', '/'] + name@
        }),
{
    reveal_strlit("output");
    reveal_strlit("output/");
    assert("output"@ =~= seq!['o', 'u', 't', 'p', 'u', 't']);
    assert("output/"@ =~= seq!['o', 'u', 't', 'p', 'u', 't', '/']);
}

} // verus!
