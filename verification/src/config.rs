//! Settings and where they come from.

use crate::bounds::{lemma_products_keep_order, lemma_sum_order, lemma_sums_keep_order, lemma_whole};
use crate::rating::{zero_rating, OrdF64};
use crate::text::{number_in, parse_u64, parse_usize, same_text};
use vstd::prelude::*;

verus! {

/// The bits of 150.0, the half width of the first search window.
pub const DEFAULT_BASE_WINDOW_BITS: u64 = 0x4062_c000_0000_0000;

/// The bits of 50.0, the growth of the window for each second of waiting.
pub const DEFAULT_WINDOW_EXPAND_BITS: u64 = 0x4049_0000_0000_0000;

/// The bits of 600.0, the half width that the window grows to.
pub const DEFAULT_MAX_WINDOW_BITS: u64 = 0x4082_c000_0000_0000;

/// After how many seconds of waiting the search leaves the region.
pub const DEFAULT_CROSS_REGION_WAIT_SECS: u64 = 15;

/// How many milliseconds a worker rests when it has formed no match.
pub const DEFAULT_WORKER_IDLE_MS: u64 = 5;

/// How many request workers there are for each processor.
pub const DEFAULT_API_WORKER_MULTIPLIER: usize = 4;

/// How many processors are assumed where the system does not tell.
pub const DEFAULT_CPU_COUNT: usize = 4;

/// The settings of the matchmaker.
#[derive(Clone, Copy, Debug, PartialEq, Eq, Structural)]
pub struct Config {
    pub base_window: OrdF64,
    pub window_expand_per_sec: OrdF64,
    pub max_window: OrdF64,
    pub cross_region_wait_secs: u64,
    pub worker_idle_ms: u64,
    pub api_worker_count: usize,
}

/// What the process environment says. A variable that is unset, or that is no
/// text, is `None`; so is a window that is no number.
pub struct Environment {
    pub cpu_count: Option<usize>,
    pub fast_cross_region: Option<String>,
    pub fast: Option<String>,
    pub base_window: Option<OrdF64>,
    pub window_expand_per_sec: Option<OrdF64>,
    pub max_window: Option<OrdF64>,
    pub cross_region_wait_secs: Option<String>,
    pub worker_idle_ms: Option<String>,
    pub api_workers: Option<String>,
}

/// The number in a variable, or the default where it holds none.
pub open spec fn number_or(value: Option<String>, max: int, default: int) -> int {
    match value {
        Some(text) => match number_in(text@, max) {
            Some(n) => n,
            None => default,
        },
        None => default,
    }
}

/// Whether a variable switches something on.
pub open spec fn switched_on(value: Option<String>) -> bool {
    match value {
        Some(text) => text@ == "1"@ || text@ == "true"@ || text@ == "TRUE"@ || text@ == "yes"@
            || text@ == "YES"@,
        None => false,
    }
}

/// A window from a variable, or the default where it holds no finite number
/// from zero up.
pub open spec fn window_or(value: Option<OrdF64>, default: OrdF64) -> OrdF64 {
    match value {
        Some(window) => if window.finite() && !window.below(zero_rating()) {
            window
        } else {
            default
        },
        None => default,
    }
}

/// The number in a variable, or the default.
pub fn env_u64(value: &Option<String>, default: u64) -> (number: u64)
    ensures
        number == number_or(*value, u64::MAX as int, default as int),
{
    match value {
        Some(text) => match parse_u64(text.as_str()) {
            Some(n) => n,
            None => default,
        },
        None => default,
    }
}

/// The number in a variable, or the default.
pub fn env_usize(value: &Option<String>, default: usize) -> (number: usize)
    ensures
        number == number_or(*value, usize::MAX as int, default as int),
{
    match value {
        Some(text) => match parse_usize(text.as_str()) {
            Some(n) => n,
            None => default,
        },
        None => default,
    }
}

/// Whether a variable switches something on.
pub fn env_bool(value: &Option<String>) -> (on: bool)
    ensures
        on == switched_on(*value),
{
    match value {
        Some(text) => {
            let text = text.as_str();
            same_text(text, "1") || same_text(text, "true") || same_text(text, "TRUE") || same_text(
                text,
                "yes",
            ) || same_text(text, "YES")
        },
        None => false,
    }
}

/// A window from a variable, or the default.
pub fn env_f64(value: Option<OrdF64>, default: OrdF64) -> (window: OrdF64)
    ensures
        window == window_or(value, default),
{
    match value {
        Some(window) => if window.is_finite() && !window.is_below(OrdF64 { bits: 0 }) {
            window
        } else {
            default
        },
        None => default,
    }
}

/// How many request workers there are by default.
pub open spec fn default_workers(cpu_count: Option<usize>) -> int {
    let cpus = match cpu_count {
        Some(n) => n,
        None => DEFAULT_CPU_COUNT,
    };
    if cpus * DEFAULT_API_WORKER_MULTIPLIER > usize::MAX {
        usize::MAX as int
    } else {
        cpus * DEFAULT_API_WORKER_MULTIPLIER
    }
}

/// The larger of two numbers.
pub open spec fn at_least(a: int, b: int) -> int {
    if a < b {
        b
    } else {
        a
    }
}

impl Config {
    /// The windows are finite and not negative.
    pub open spec fn wf(self) -> bool {
        &&& self.base_window.finite() && !self.base_window.below(zero_rating())
        &&& self.window_expand_per_sec.finite() && !self.window_expand_per_sec.below(zero_rating())
        &&& self.max_window.finite() && !self.max_window.below(zero_rating())
    }

    /// The half width that the window has grown to after a wait: so much more
    /// for each second, up to the widest window.
    pub open spec fn grown(self, wait_secs: OrdF64) -> OrdF64 {
        self.base_window.plus(self.window_expand_per_sec.times(wait_secs)).smaller(self.max_window)
    }

    /// Whether a search may leave the region after a wait.
    pub open spec fn crosses_regions(self, wait_secs: OrdF64) -> bool {
        !wait_secs.below(OrdF64::whole(self.cross_region_wait_secs as nat))
    }

    /// The half width that the window has grown to after a wait.
    pub fn expanded_window(&self, wait_secs: OrdF64) -> (window: OrdF64)
        requires
            self.wf(),
            wait_secs.finite(),
        ensures
            window == self.grown(wait_secs),
            !window.nan(),
            !self.max_window.below(window),
    {
        self.base_window.sum(self.window_expand_per_sec.product(wait_secs)).min(self.max_window)
    }

    /// Whether a search may leave the region after a wait.
    pub fn allows_cross_region(&self, wait_secs: OrdF64) -> (allowed: bool)
        ensures
            allowed == self.crosses_regions(wait_secs),
    {
        !wait_secs.is_below(OrdF64::from_whole(self.cross_region_wait_secs))
    }

    /// The settings that an environment asks for.
    pub open spec fn of(env: Environment) -> Config {
        let base = window_or(env.base_window, OrdF64 { bits: DEFAULT_BASE_WINDOW_BITS });
        Config {
            base_window: base,
            window_expand_per_sec: window_or(
                env.window_expand_per_sec,
                OrdF64 { bits: DEFAULT_WINDOW_EXPAND_BITS },
            ),
            max_window: window_or(
                env.max_window,
                OrdF64 { bits: DEFAULT_MAX_WINDOW_BITS },
            ).larger(base),
            cross_region_wait_secs: if switched_on(env.fast_cross_region) {
                0
            } else {
                number_or(
                    env.cross_region_wait_secs,
                    u64::MAX as int,
                    if switched_on(env.fast) {
                        0
                    } else {
                        DEFAULT_CROSS_REGION_WAIT_SECS as int
                    },
                ) as u64
            },
            worker_idle_ms: number_or(
                env.worker_idle_ms,
                u64::MAX as int,
                DEFAULT_WORKER_IDLE_MS as int,
            ) as u64,
            api_worker_count: at_least(
                number_or(env.api_workers, usize::MAX as int, default_workers(env.cpu_count)),
                1,
            ) as usize,
        }
    }

    /// The settings that an environment asks for.
    pub fn from_env(env: &Environment) -> (config: Config)
        ensures
            config == Config::of(*env),
            config.wf(),
            config.api_worker_count >= 1,
            !config.max_window.below(config.base_window),
    {
        let cpu_count: usize = match env.cpu_count {
            Some(count) => count,
            None => DEFAULT_CPU_COUNT,
        };
        let default_api_workers: usize = if cpu_count > usize::MAX / DEFAULT_API_WORKER_MULTIPLIER {
            usize::MAX
        } else {
            cpu_count * DEFAULT_API_WORKER_MULTIPLIER
        };
        let mut config = Config {
            base_window: OrdF64 { bits: DEFAULT_BASE_WINDOW_BITS },
            window_expand_per_sec: OrdF64 { bits: DEFAULT_WINDOW_EXPAND_BITS },
            max_window: OrdF64 { bits: DEFAULT_MAX_WINDOW_BITS },
            cross_region_wait_secs: DEFAULT_CROSS_REGION_WAIT_SECS,
            worker_idle_ms: DEFAULT_WORKER_IDLE_MS,
            api_worker_count: default_api_workers,
        };

        if env_bool(&env.fast_cross_region) || env_bool(&env.fast) {
            config.cross_region_wait_secs = 0;
        }
        config.base_window = env_f64(env.base_window, config.base_window);
        config.window_expand_per_sec = env_f64(
            env.window_expand_per_sec,
            config.window_expand_per_sec,
        );
        config.max_window = env_f64(env.max_window, config.max_window).max(config.base_window);
        config.cross_region_wait_secs = env_u64(
            &env.cross_region_wait_secs,
            config.cross_region_wait_secs,
        );
        if env_bool(&env.fast_cross_region) {
            config.cross_region_wait_secs = 0;
        }
        config.worker_idle_ms = env_u64(&env.worker_idle_ms, config.worker_idle_ms);
        let workers: usize = env_usize(&env.api_workers, config.api_worker_count);
        config.api_worker_count = if workers < 1 {
            1
        } else {
            workers
        };
        config
    }

    /// The window grows with the wait: whoever has waited longer is not given a
    /// narrower one.
    pub proof fn law_window_grows_with_the_wait(self, shorter: OrdF64, longer: OrdF64)
        requires
            self.wf(),
            shorter.finite(),
            longer.finite(),
            !shorter.negative(),
            !longer.negative(),
            !longer.below(shorter),
        ensures
            !self.grown(longer).below(self.grown(shorter)),
    {
        let per_sec = self.window_expand_per_sec;
        lemma_products_keep_order(per_sec, shorter, longer);
        lemma_sums_keep_order(self.base_window, per_sec.times(shorter), per_sec.times(longer));
    }

    /// The window never grows beyond the widest one, nor is it ever negative.
    pub proof fn law_window_is_capped(self, wait_secs: OrdF64)
        requires
            self.wf(),
            wait_secs.finite(),
            !wait_secs.negative(),
        ensures
            self.grown(wait_secs).finite(),
            !self.grown(wait_secs).below(zero_rating()),
            !self.max_window.below(self.grown(wait_secs)),
    {
        let more = self.window_expand_per_sec.times(wait_secs);
        lemma_products_keep_order(self.window_expand_per_sec, wait_secs, wait_secs);
        lemma_sums_keep_order(self.base_window, more, more);
        if more.finite() {
            lemma_sum_order(self.base_window, more);
        }
    }

    /// Regions that are open after a wait are open after a longer one.
    pub proof fn law_regions_stay_open(self, shorter: OrdF64, longer: OrdF64)
        requires
            !shorter.nan(),
            !longer.nan(),
            !longer.below(shorter),
            self.crosses_regions(shorter),
        ensures
            self.crosses_regions(longer),
    {
        lemma_whole(self.cross_region_wait_secs as nat);
    }

    /// The shortcut across regions lifts the wait, whatever else is set.
    pub proof fn law_fast_cross_region_lifts_the_wait(env: Environment, wait_secs: OrdF64)
        requires
            switched_on(env.fast_cross_region),
            !wait_secs.negative(),
        ensures
            Config::of(env).cross_region_wait_secs == 0,
            Config::of(env).crosses_regions(wait_secs),
    {
        lemma_whole(0);
    }
}

} // verus!
