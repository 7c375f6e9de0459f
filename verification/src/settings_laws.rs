//! What settings come to.

use crate::api::{as_chars, decimal, law_decimal_digits};
use crate::arithmetic_laws::{
    distance, law_arithmetic_on_whole_numbers, law_comparison_goes_by_value,
    law_products_and_quotients_are_nearest, law_sums_are_nearest, lemma_bits_of_whole,
};
use crate::bounds::lemma_whole;
use crate::clock::{
    law_seconds_are_not_reached_long_before, law_seconds_are_reached_in_time, seconds,
};
use crate::config::{switched_on, Config, Environment};
use crate::rating::{zero_rating, OrdF64};
use crate::rounding::{lemma_units_of_zero, nearest};
use crate::text::{
    digits_value, law_numbers_are_read, law_other_text_is_no_number, number_in,
};
use vstd::arithmetic::power2::{lemma2_to64, lemma2_to64_rest, pow2};
use vstd::prelude::*;

verus! {

/// On whole numbers the window is the first one and so many points more for
/// each second of the wait, at most the widest one.
pub proof fn law_window_on_whole_numbers(
    config: Config,
    base: nat,
    per_sec: nat,
    widest: nat,
    secs: nat,
)
    requires
        config.base_window == OrdF64::whole(base),
        config.window_expand_per_sec == OrdF64::whole(per_sec),
        config.max_window == OrdF64::whole(widest),
        base + per_sec * secs < 0x20_0000_0000_0000,
        base < 0x20_0000_0000_0000,
        per_sec < 0x20_0000_0000_0000,
        secs < 0x20_0000_0000_0000,
        widest < 0x20_0000_0000_0000,
    ensures
        config.grown(OrdF64::whole(secs)) == OrdF64::whole(
            if base + per_sec * secs < widest {
                base + per_sec * secs
            } else {
                widest
            },
        ),
{
    let more = per_sec * secs;
    assert(more >= 0) by (nonlinear_arith)
        requires
            more == per_sec * secs,
            per_sec >= 0,
            secs >= 0,
    ;
    law_arithmetic_on_whole_numbers(per_sec, secs);
    law_arithmetic_on_whole_numbers(base, more as nat);
    law_arithmetic_on_whole_numbers(widest, (base + more) as nat);
    law_arithmetic_on_whole_numbers((base + more) as nat, widest);
    lemma_whole(widest);
    lemma_whole((base + more) as nat);
}

/// The grown window is the first one and the growth for the wait, each rounded
/// to the nearest double, or the widest one where that is less.
pub proof fn law_window_is_nearest(config: Config, wait_secs: OrdF64) -> (parts: (OrdF64, OrdF64))
    requires
        config.wf(),
        wait_secs.finite(),
    ensures
        ({
            let (more, sum) = parts;
            let exact = config.base_window.value() + more.value();
            &&& nearest(
                config.window_expand_per_sec.units() * wait_secs.units(),
                pow2(1074) as int,
                more.magnitude(),
            )
            &&& more.negative() == (config.window_expand_per_sec.negative()
                != wait_secs.negative())
            &&& more.finite() ==> nearest(distance(exact, 0), 1, sum.magnitude())
            &&& more.finite() && exact > 0 ==> !sum.negative()
            &&& more.finite() && exact < 0 ==> sum.negative()
            &&& !more.finite() ==> sum == more
            &&& config.grown(wait_secs) == if config.max_window.below(sum) {
                config.max_window
            } else {
                sum
            }
        }),
{
    let more = config.window_expand_per_sec.times(wait_secs);
    let sum = config.base_window.plus(more);
    law_products_and_quotients_are_nearest(config.window_expand_per_sec, wait_secs);
    if more.finite() {
        law_sums_are_nearest(config.base_window, more);
    }
    (more, sum)
}

/// Other regions are open when the wait has reached the setting, counted in
/// nanoseconds. Up to four million seconds they are never open early, and beyond
/// by less than the last second, where the wait is rounded.
pub proof fn law_regions_open_in_time(config: Config, wait_ns: u64)
    ensures
        config.cross_region_wait_secs * 1_000_000_000 <= wait_ns ==> config.crosses_regions(
            seconds(wait_ns),
        ),
        wait_ns < config.cross_region_wait_secs * 1_000_000_000 && config.cross_region_wait_secs
            <= 4_000_000 ==> !config.crosses_regions(seconds(wait_ns)),
        wait_ns / 1_000_000_000 + 1 < config.cross_region_wait_secs ==> !config.crosses_regions(
            seconds(wait_ns),
        ),
{
    law_seconds_are_reached_in_time(wait_ns, config.cross_region_wait_secs);
    if wait_ns / 1_000_000_000 + 1 < config.cross_region_wait_secs {
        law_seconds_are_not_reached_long_before(wait_ns, config.cross_region_wait_secs);
    }
}

/// Other regions are open when the wait, in seconds, is not less than the
/// setting.
pub proof fn law_regions_open_by_the_wait(config: Config, wait_secs: OrdF64)
    requires
        wait_secs.finite(),
    ensures
        config.crosses_regions(wait_secs) <==> OrdF64::whole(
            config.cross_region_wait_secs as nat,
        ).value() <= wait_secs.value(),
{
    lemma_whole(config.cross_region_wait_secs as nat);
    law_comparison_goes_by_value(wait_secs, OrdF64::whole(config.cross_region_wait_secs as nat));
}

/// A number in a setting is used as it is written, with or without a plus sign,
/// and at least one request worker is kept.
pub proof fn law_numbers_are_used_as_written(env: Environment, text: String, digits: Seq<char>)
    requires
        text@ == digits || text@ == seq!['+'] + digits,
        digits.len() > 0,
        forall|i: int| 0 <= i < digits.len() ==> 0x30 <= #[trigger] digits[i] as int <= 0x39,
    ensures
        ({
            let n = digits_value(digits);
            &&& env.cross_region_wait_secs == Some(text) && !switched_on(env.fast_cross_region)
                && 0 <= n <= 0xffff_ffff_ffff_ffff ==> Config::of(env).cross_region_wait_secs == n
            &&& env.worker_idle_ms == Some(text) && 0 <= n <= 0xffff_ffff_ffff_ffff ==> Config::of(
                env,
            ).worker_idle_ms == n
            &&& env.api_workers == Some(text) && 1 <= n <= usize::MAX ==> Config::of(
                env,
            ).api_worker_count == n
            &&& env.api_workers == Some(text) && n == 0 ==> Config::of(env).api_worker_count == 1
        }),
{
    law_numbers_are_read(digits, u64::MAX as int);
    law_numbers_are_read(digits, usize::MAX as int);
}

/// The digits of a number in a setting come to that number.
pub proof fn law_decimal_numbers_are_used(env: Environment, text: String, n: nat)
    requires
        text@ == as_chars(decimal(n)),
        n <= 0xffff_ffff_ffff_ffff,
    ensures
        env.cross_region_wait_secs == Some(text) && !switched_on(env.fast_cross_region)
            ==> Config::of(env).cross_region_wait_secs == n,
        env.worker_idle_ms == Some(text) ==> Config::of(env).worker_idle_ms == n,
        env.api_workers == Some(text) && 1 <= n <= usize::MAX ==> Config::of(env).api_worker_count
            == n,
{
    law_decimal_digits(n);
    law_numbers_are_used_as_written(env, text, as_chars(decimal(n)));
}

/// Whether a setting is missing, or is no number: it is empty or a mere plus
/// sign, has a character at a place where no number has it, or is too large.
pub open spec fn lacks_number(value: Option<String>, i: int, max: int) -> bool {
    match value {
        None => true,
        Some(text) => {
            ||| text@.len() == 0
            ||| text@ == seq!['+']
            ||| 0 <= i < text@.len() && !(0x30 <= text@[i] as int <= 0x39) && (i > 0 || text@[0]
                != '+')
            ||| text@[0] != '+' && digits_value(text@) > max
            ||| text@[0] == '+' && digits_value(text@.skip(1)) > max
        },
    }
}

/// Without a readable number a setting has its default: 15 seconds, or none in
/// a fast mode, 5 milliseconds, and four request workers for each processor, of
/// which four are assumed where their number is not known.
pub proof fn law_settings_have_defaults(env: Environment, i: int)
    ensures
        lacks_number(env.cross_region_wait_secs, i, 0xffff_ffff_ffff_ffff) ==> Config::of(
            env,
        ).cross_region_wait_secs == if switched_on(env.fast_cross_region) || switched_on(env.fast) {
            0u64
        } else {
            15u64
        },
        lacks_number(env.worker_idle_ms, i, 0xffff_ffff_ffff_ffff) ==> Config::of(
            env,
        ).worker_idle_ms == 5,
        lacks_number(env.api_workers, i, usize::MAX as int) ==> Config::of(env).api_worker_count
            == match env.cpu_count {
            None => 16int,
            Some(cpus) => if cpus == 0 {
                1
            } else if 4 * cpus <= usize::MAX {
                4 * cpus
            } else {
                usize::MAX as int
            },
        },
{
    if lacks_number(env.cross_region_wait_secs, i, u64::MAX as int) {
        lemma_lacks_number(env.cross_region_wait_secs, i, u64::MAX as int);
    }
    if lacks_number(env.worker_idle_ms, i, u64::MAX as int) {
        lemma_lacks_number(env.worker_idle_ms, i, u64::MAX as int);
    }
    if lacks_number(env.api_workers, i, usize::MAX as int) {
        lemma_lacks_number(env.api_workers, i, usize::MAX as int);
    }
}

proof fn lemma_lacks_number(value: Option<String>, i: int, max: int)
    requires
        lacks_number(value, i, max),
    ensures
        value is None || number_in(value->0@, max) is None,
{
    if let Some(text) = value {
        if text@.len() == 0 || text@ == seq!['+'] || (0 <= i < text@.len() && !(0x30 <= text@[i] as int
            <= 0x39) && (i > 0 || text@[0] != '+')) {
            law_other_text_is_no_number(text@, max, i);
        }
    }
}

/// The words that switch something on.
pub proof fn law_words_that_switch_on(text: String)
    ensures
        switched_on(Some(text)) <==> text@ == "1"@ || text@ == "true"@ || text@ == "TRUE"@
            || text@ == "yes"@ || text@ == "YES"@,
        !switched_on(None::<String>),
{
}

/// A window that is finite and not below zero is used as it is. Without one the
/// first window is 150, it grows by 50 each second, and the widest is 600. The
/// widest window is never narrower than the first.
pub proof fn law_windows_are_used_as_given(env: Environment)
    ensures
        Config::of(env).base_window == window_given(env.base_window, OrdF64::whole(150)),
        Config::of(env).window_expand_per_sec == window_given(
            env.window_expand_per_sec,
            OrdF64::whole(50),
        ),
        ({
            let (base, widest) = (
                Config::of(env).base_window,
                window_given(env.max_window, OrdF64::whole(600)),
            );
            &&& widest.value() < base.value() ==> Config::of(env).max_window == base
            &&& widest.value() >= base.value() ==> Config::of(env).max_window == widest
        }),
{
    lemma2_to64();
    lemma2_to64_rest();
    lemma_bits_of_whole(150, 1029, 45, 0x4062_c000_0000_0000);
    lemma_bits_of_whole(50, 1027, 47, 0x4049_0000_0000_0000);
    lemma_bits_of_whole(600, 1031, 43, 0x4082_c000_0000_0000);
    lemma_whole(150);
    lemma_whole(50);
    lemma_whole(600);
    lemma_window(env.base_window);
    lemma_window(env.window_expand_per_sec);
    lemma_window(env.max_window);
    law_comparison_goes_by_value(
        window_given(env.max_window, OrdF64::whole(600)),
        Config::of(env).base_window,
    );
}

/// A window where a finite one that is not below zero is given.
pub open spec fn window_given(window: Option<OrdF64>, default: OrdF64) -> OrdF64 {
    if window is Some && window->0.finite() && window->0.value() >= 0 {
        window->0
    } else {
        default
    }
}

proof fn lemma_window(window: Option<OrdF64>)
    ensures
        window is Some && window->0.finite() ==> (window->0.value() >= 0 <==> !window->0.below(
            zero_rating(),
        )),
{
    if window is Some && window->0.finite() {
        law_comparison_goes_by_value(window->0, zero_rating());
        lemma_units_of_zero();
    }
}

} // verus!
