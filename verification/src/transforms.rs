//! What is done to a name after its matches have been replaced: letter case,
//! what is appended and prepended, and the counters therein.
//!
//! The order is fixed: lower or upper case, then append, then prepend.

use vstd::prelude::*;
use crate::text;

verus! {

/// What to do to a name.
#[derive(Debug)]
pub struct TransformOptions {
    /// Lower its letters.
    pub lower: bool,
    /// Raise its letters, unless they are to be lowered.
    pub upper: bool,
    /// A template for what comes behind it.
    pub append: Option<String>,
    /// A template for what comes before it.
    pub prepend: Option<String>,
}

impl Default for TransformOptions {
    /// Nothing is to be done.
    fn default() -> (out: TransformOptions)
        ensures
            out == (TransformOptions { lower: false, upper: false, append: None, prepend: None }),
    {
        TransformOptions { lower: false, upper: false, append: None, prepend: None }
    }
}

/// What a counter shows: the number of an entry within its directory, from one
/// on, and how many entries its directory has.
#[derive(Clone, Copy, Debug, Default)]
pub struct CounterContext {
    pub n: usize,
    pub dir_count: usize,
}

/// A template whose counter is as wide as the number of entries in the
/// directory.
pub const SMART_COUNTER_TEMPLATE: &'static str = "{N}_";

// ---- templates -------------------------------------------------------------------

/// Whether `Regex::is_match` finds the class `\d` in a character that is not
/// ASCII.
pub uninterp spec fn decimal_digit(c: char) -> bool;

/// Calls `Regex::is_match` with the class `\d`, the decimal digits of all
/// scripts. Among the ASCII characters these are the digits from 0 to 9.
#[verifier::external_body]
fn is_decimal_digit(c: char) -> (found: bool)
    ensures
        (c as u32) < 128 ==> found == text::is_digit(c),
        (c as u32) >= 128 ==> found == decimal_digit(c),
{
    regex::Regex::new("\\d").unwrap().is_match(c.to_string().as_str())
}

/// Whether the character is a decimal digit of any script.
pub open spec fn counts_as_digit(c: char) -> bool {
    if (c as u32) < 128 {
        text::is_digit(c)
    } else {
        decimal_digit(c)
    }
}

/// How many decimal digits the text begins with.
pub open spec fn digit_run(t: Seq<char>) -> nat
    decreases t.len(),
{
    if t.len() > 0 && counts_as_digit(t[0]) {
        1 + digit_run(t.skip(1))
    } else {
        0
    }
}

/// The width that digits ask for: none if they are not the digits from 0 to 9,
/// or write a number that is out of range.
pub open spec fn width_of(digits: Seq<char>) -> nat {
    if (forall|i: int| 0 <= i < digits.len() ==> text::is_digit(#[trigger] digits[i]))
        && text::number_of(digits) <= usize::MAX {
        text::number_of(digits)
    } else {
        0
    }
}

/// A place in a template at which the counter goes.
pub struct Slot {
    /// The number of characters that mark the place.
    pub len: int,
    /// The number of digits that the counter has at least, or nothing if that is
    /// up to the directory.
    pub width: Option<nat>,
}

/// The slot that the text begins with: `{N}`, `{n}`, or `{n:0W}` with a width.
pub open spec fn slot(t: Seq<char>) -> Option<Slot> {
    if text::starts_with(t, "{N}"@) {
        Some(Slot { len: 3, width: None })
    } else if text::starts_with(t, "{n}"@) {
        Some(Slot { len: 3, width: Some(0) })
    } else if text::starts_with(t, "{n:0"@) {
        let k = digit_run(t.skip(4)) as int;
        if k > 0 && 4 + k < t.len() && t[4 + k] == '}' {
            Some(Slot { len: 5 + k, width: Some(width_of(t.subrange(4, 4 + k))) })
        } else {
            None
        }
    } else {
        None
    }
}

/// Whether there is a slot anywhere in the text.
pub open spec fn has_slot(t: Seq<char>) -> bool
    decreases t.len(),
{
    t.len() > 0 && (slot(t) is Some || has_slot(t.skip(1)))
}

/// The width of a counter that is up to the directory: as many digits as the
/// number of its entries has, and at least two.
pub open spec fn smart_width(dir_count: nat) -> nat {
    let digits = text::decimal(dir_count).len();
    if digits < 2 {
        2
    } else {
        digits
    }
}

/// What stands in a slot.
pub open spec fn counter(slot: Slot, ctx: CounterContext) -> Seq<char> {
    let width = match slot.width {
        Some(w) => w,
        None => smart_width(ctx.dir_count as nat),
    };
    text::zero_filled(text::decimal(ctx.n as nat), width)
}

/// A template with the counter in each of its slots, and all else as it is.
pub open spec fn formatted(t: Seq<char>, ctx: CounterContext) -> Seq<char>
    decreases t.len(),
{
    if t.len() == 0 {
        Seq::empty()
    } else {
        proof {
            reveal_strlit("{N}");
            reveal_strlit("{n}");
        }
        match slot(t) {
            Some(s) => counter(s, ctx) + formatted(t.skip(s.len), ctx),
            None => seq![t[0]] + formatted(t.skip(1), ctx),
        }
    }
}

/// What becomes of a name.
pub open spec fn transformed(
    name: Seq<char>,
    opts: TransformOptions,
    ctx: CounterContext,
) -> Seq<char> {
    let cased = if opts.lower {
        text::lowercased(name)
    } else if opts.upper {
        text::uppercased(name)
    } else {
        name
    };
    let appended = match opts.append {
        Some(suffix) => cased + formatted(suffix@, ctx),
        None => cased,
    };
    match opts.prepend {
        Some(prefix) => formatted(prefix@, ctx) + appended,
        None => appended,
    }
}

// ---- laws ------------------------------------------------------------------------

/// A template without a slot is shown as it is, whatever is counted.
pub proof fn law_template_without_slot_is_verbatim(t: Seq<char>, ctx: CounterContext)
    requires
        !has_slot(t),
    ensures
        formatted(t, ctx) == t,
    decreases t.len(),
{
    if t.len() > 0 {
        law_template_without_slot_is_verbatim(t.skip(1), ctx);
        assert(seq![t[0]] + t.skip(1) == t);
    }
}

/// A name to which nothing is to be done stays as it is.
pub proof fn law_nothing_asked_nothing_done(
    name: Seq<char>,
    opts: TransformOptions,
    ctx: CounterContext,
)
    requires
        !opts.lower,
        !opts.upper,
        opts.append is None,
        opts.prepend is None,
    ensures
        transformed(name, opts, ctx) == name,
{
}

/// Whatever stands in a slot consists of digits, is as wide as asked for, and
/// writes the number of the entry.
pub proof fn law_counter_writes_the_number(slot: Slot, ctx: CounterContext)
    ensures
        forall|i: int|
            0 <= i < counter(slot, ctx).len() ==> text::is_digit(#[trigger] counter(slot, ctx)[i]),
        text::number_of(counter(slot, ctx)) == ctx.n,
        slot.width matches Some(w) ==> counter(slot, ctx).len() >= w,
        slot.width is None ==> counter(slot, ctx).len() >= smart_width(ctx.dir_count as nat) >= 2,
{
    let digits = text::decimal(ctx.n as nat);
    text::law_decimal_reads_back(ctx.n as nat);
    let width = match slot.width {
        Some(w) => w,
        None => smart_width(ctx.dir_count as nat),
    };
    text::law_zeros_change_nothing(digits, width);
}

/// Numbers up to that of the entries in the directory are all equally wide
/// where the width is up to the directory.
pub proof fn law_smart_counters_align(slot: Slot, a: CounterContext, b: CounterContext)
    requires
        slot.width is None,
        a.dir_count == b.dir_count,
        a.n <= a.dir_count,
        b.n <= b.dir_count,
    ensures
        counter(slot, a).len() == counter(slot, b).len(),
{
    lemma_decimal_grows(a.n as nat, a.dir_count as nat);
    lemma_decimal_grows(b.n as nat, b.dir_count as nat);
}

proof fn lemma_decimal_grows(a: nat, b: nat)
    requires
        a <= b,
    ensures
        text::decimal(a).len() <= text::decimal(b).len(),
    decreases b,
{
    if a >= 10 {
        lemma_decimal_grows(a / 10, b / 10);
    } else if b >= 10 {
        text::law_decimal_reads_back(b / 10);
    }
}

/// The case of a name is changed as asked, and what is prepended and appended goes
/// round it as it stands: neither has a say in the case, and the case has none in
/// them.
pub proof fn law_affixes_go_round_the_cased_name(
    name: Seq<char>,
    opts: TransformOptions,
    ctx: CounterContext,
)
    ensures
        ({
            let prefix = match opts.prepend {
                Some(t) => formatted(t@, ctx),
                None => Seq::empty(),
            };
            let suffix = match opts.append {
                Some(t) => formatted(t@, ctx),
                None => Seq::empty(),
            };
            &&& opts.lower ==> transformed(name, opts, ctx) == prefix + text::lowercased(name)
                + suffix
            &&& !opts.lower && opts.upper ==> transformed(name, opts, ctx) == prefix
                + text::uppercased(name) + suffix
            &&& !opts.lower && !opts.upper ==> transformed(name, opts, ctx) == prefix + name
                + suffix
        }),
{
    let prefix = match opts.prepend {
        Some(t) => formatted(t@, ctx),
        None => Seq::empty(),
    };
    let suffix = match opts.append {
        Some(t) => formatted(t@, ctx),
        None => Seq::empty(),
    };
    let middle = if opts.lower {
        text::lowercased(name)
    } else if opts.upper {
        text::uppercased(name)
    } else {
        name
    };
    assert(transformed(name, opts, ctx) =~= prefix + middle + suffix);
}

/// Options that differ in what is prepended and appended alone change the case of a
/// name alike: what is between the affixes is the same.
pub proof fn law_affixes_leave_the_case_alone(
    name: Seq<char>,
    a: TransformOptions,
    b: TransformOptions,
    ctx: CounterContext,
)
    requires
        a.lower == b.lower,
        a.upper == b.upper,
        b.append is None,
        b.prepend is None,
    ensures
        a.append is None && a.prepend is None ==> transformed(name, a, ctx) == transformed(
            name,
            b,
            ctx,
        ),
        a.append is None ==> (a.prepend matches Some(t) ==> transformed(name, a, ctx) == formatted(
            t@,
            ctx,
        ) + transformed(name, b, ctx)),
        a.prepend is None ==> (a.append matches Some(t) ==> transformed(name, a, ctx)
            == transformed(name, b, ctx) + formatted(t@, ctx)),
        a.prepend matches Some(t) ==> a.append matches Some(u) ==> transformed(name, a, ctx)
            == formatted(t@, ctx) + transformed(name, b, ctx) + formatted(u@, ctx),
{
    law_affixes_go_round_the_cased_name(name, a, ctx);
    law_affixes_go_round_the_cased_name(name, b, ctx);
    let bare = transformed(name, b, ctx);
    assert(Seq::<char>::empty() + bare + Seq::<char>::empty() == bare);
    let cased = if a.lower {
        text::lowercased(name)
    } else if a.upper {
        text::uppercased(name)
    } else {
        name
    };
    assert(Seq::<char>::empty() + cased + Seq::<char>::empty() == cased);
    assert(bare == cased);
    if let Some(t) = a.prepend {
        assert(formatted(t@, ctx) + cased + Seq::<char>::empty() == formatted(t@, ctx) + cased);
    }
    if let Some(t) = a.append {
        assert(Seq::<char>::empty() + cased + formatted(t@, ctx) == cased + formatted(t@, ctx));
    }
}

/// A slot begins with an opening brace, ends with the first closing one behind it,
/// and has an `N`, an `n`, or an `n:0` and digits between the two. Any text of that
/// shape is a slot, whatever follows it.
#[verifier::rlimit(40)]
#[verifier::spinoff_prover]
pub proof fn law_slots_have_one_of_three_shapes(t: Seq<char>, rest: Seq<char>)
    ensures
        slot(t) matches Some(s) ==> {
            &&& 3 <= s.len <= t.len()
            &&& t[0] == '{'
            &&& t[s.len - 1] == '}'
            &&& forall|i: int| 0 < i < s.len - 1 ==> t[i] != '{' && t[i] != '}'
            &&& s.len == 3 ==> (t[1] == 'N' && s.width is None) || (t[1] == 'n' && s.width == Some(
                0nat,
            ))
            &&& s.len > 3 ==> {
                &&& s.len > 5
                &&& t[1] == 'n' && t[2] == ':' && t[3] == '0'
                &&& forall|i: int| 4 <= i < s.len - 1 ==> counts_as_digit(#[trigger] t[i])
                &&& s.width is Some
                &&& (forall|i: int| 4 <= i < s.len - 1 ==> text::is_digit(#[trigger] t[i]))
                    && text::number_of(t.subrange(4, s.len - 1)) <= usize::MAX ==> s.width == Some(
                    text::number_of(t.subrange(4, s.len - 1)),
                )
            }
        },
        slot(seq!['{', 'N', '}'] + rest) == Some(Slot { len: 3, width: None }),
        slot(seq!['{', 'n', '}'] + rest) == Some(Slot { len: 3, width: Some(0) }),
        t.len() > 0 && (forall|i: int| 0 <= i < t.len() ==> counts_as_digit(#[trigger] t[i]))
            ==> (slot(seq!['{', 'n', ':', '0'] + t + seq!['}'] + rest) matches Some(s) && s.len
            == t.len() + 5),
{
    reveal_strlit("{N}");
    reveal_strlit("{n}");
    reveal_strlit("{n:0");
    if text::starts_with(t, "{N}"@) {
        assert(t.take(3)[0] == '{' && t.take(3)[1] == 'N' && t.take(3)[2] == '}');
    } else if text::starts_with(t, "{n}"@) {
        assert(t.take(3)[0] == '{' && t.take(3)[1] == 'n' && t.take(3)[2] == '}');
    } else if text::starts_with(t, "{n:0"@) {
        assert(t.take(4)[0] == '{' && t.take(4)[1] == 'n' && t.take(4)[2] == ':' && t.take(4)[3]
            == '0');
        lemma_digit_run(t.skip(4));
        if let Some(s) = slot(t) {
            assert forall|i: int| 4 <= i < s.len - 1 implies counts_as_digit(#[trigger] t[i]) by {
                assert(t.skip(4)[i - 4] == t[i]);
            }
            let digits = t.subrange(4, s.len - 1);
            if forall|i: int| 4 <= i < s.len - 1 ==> text::is_digit(#[trigger] t[i]) {
                assert forall|i: int| 0 <= i < digits.len() implies text::is_digit(
                    #[trigger] digits[i],
                ) by {
                    assert(text::is_digit(t[i + 4]));
                }
            }
        }
    }
    let big = seq!['{', 'N', '}'] + rest;
    assert(big.take(3) =~= "{N}"@);
    let small = seq!['{', 'n', '}'] + rest;
    assert(small.take(3) =~= "{n}"@);
    assert(small.take(3)[1] == 'n');
    assert(!text::starts_with(small, "{N}"@));
    if t.len() > 0 && (forall|i: int| 0 <= i < t.len() ==> counts_as_digit(#[trigger] t[i])) {
        let wide = seq!['{', 'n', ':', '0'] + t + seq!['}'] + rest;
        assert(wide.take(4) =~= "{n:0"@);
        assert(wide.take(3)[1] == 'n');
        assert(wide.take(3)[2] == ':');
        assert(!text::starts_with(wide, "{N}"@));
        assert(!text::starts_with(wide, "{n}"@));
        assert(wide.skip(4) =~= t + seq!['}'] + rest);
        lemma_digit_run_ends(t, seq!['}'] + rest);
        assert(t + seq!['}'] + rest =~= t + (seq!['}'] + rest));
        assert(wide[4 + t.len() as int] == '}');
    }
}

proof fn lemma_digit_run(t: Seq<char>)
    ensures
        digit_run(t) <= t.len(),
        forall|i: int| 0 <= i < digit_run(t) ==> counts_as_digit(#[trigger] t[i]),
    decreases t.len(),
{
    if t.len() > 0 && counts_as_digit(t[0]) {
        lemma_digit_run(t.skip(1));
        assert forall|i: int| 0 <= i < digit_run(t) implies counts_as_digit(#[trigger] t[i]) by {
            if i > 0 {
                assert(t.skip(1)[i - 1] == t[i]);
            }
        }
    }
}

proof fn lemma_digit_run_ends(t: Seq<char>, rest: Seq<char>)
    requires
        forall|i: int| 0 <= i < t.len() ==> counts_as_digit(#[trigger] t[i]),
        rest.len() > 0,
        !counts_as_digit(rest[0]),
    ensures
        digit_run(t + rest) == t.len(),
    decreases t.len(),
{
    if t.len() > 0 {
        assert(counts_as_digit(t[0]));
        assert((t + rest).skip(1) =~= t.skip(1) + rest);
        assert forall|i: int| 0 <= i < t.skip(1).len() implies counts_as_digit(
            #[trigger] t.skip(1)[i],
        ) by {
            assert(counts_as_digit(t[i + 1]));
        }
        lemma_digit_run_ends(t.skip(1), rest);
    } else {
        assert(t + rest =~= rest);
    }
}

/// There is a slot in a text if one begins somewhere in it.
pub proof fn law_slots_are_found_anywhere(t: Seq<char>)
    ensures
        has_slot(t) <==> exists|i: int| 0 <= i < t.len() && slot(#[trigger] t.skip(i)) is Some,
    decreases t.len(),
{
    if t.len() > 0 {
        let rest = t.skip(1);
        law_slots_are_found_anywhere(rest);
        assert(t.skip(0) =~= t);
        assert forall|i: int| 0 <= i < rest.len() implies #[trigger] rest.skip(i) == t.skip(
            i + 1,
        ) by {
            assert(rest.skip(i) =~= t.skip(i + 1));
        }
        if has_slot(rest) {
            let i = choose|i: int| 0 <= i < rest.len() && slot(#[trigger] rest.skip(i)) is Some;
            assert(slot(t.skip(i + 1)) is Some);
        }
        if exists|i: int| 0 <= i < t.len() && slot(#[trigger] t.skip(i)) is Some {
            let i = choose|i: int| 0 <= i < t.len() && slot(#[trigger] t.skip(i)) is Some;
            if i > 0 {
                assert(slot(rest.skip(i - 1)) is Some);
            }
        }
    }
}

/// What comes before an opening brace is formatted by itself: `{n}` and its like
/// show their counters wherever they stand, and a character that is no opening
/// brace stays.
pub proof fn law_templates_are_formatted_piece_by_piece(
    a: Seq<char>,
    b: Seq<char>,
    c: char,
    ctx: CounterContext,
)
    requires
        b.len() == 0 || b[0] == '{',
    ensures
        formatted(a + b, ctx) == formatted(a, ctx) + formatted(b, ctx),
        c != '{' ==> formatted(seq![c] + a, ctx) == seq![c] + formatted(a, ctx),
        slot(b) matches Some(s) ==> formatted(b, ctx) == counter(s, ctx) + formatted(
            b.skip(s.len),
            ctx,
        ),
    decreases a.len(),
{
    let both = a + b;
    if a.len() == 0 {
        assert(both =~= b);
        assert(formatted(a, ctx) + formatted(b, ctx) =~= formatted(b, ctx));
    } else {
        lemma_slot_stays(a, b);
        law_slots_have_one_of_three_shapes(a, Seq::empty());
        match slot(a) {
            Some(s) => {
                assert(both.skip(s.len) =~= a.skip(s.len) + b);
                law_templates_are_formatted_piece_by_piece(a.skip(s.len), b, c, ctx);
                assert(counter(s, ctx) + (formatted(a.skip(s.len), ctx) + formatted(b, ctx))
                    =~= counter(s, ctx) + formatted(a.skip(s.len), ctx) + formatted(b, ctx));
            },
            None => {
                assert(both.skip(1) =~= a.skip(1) + b);
                law_templates_are_formatted_piece_by_piece(a.skip(1), b, c, ctx);
                assert(seq![a[0]] + (formatted(a.skip(1), ctx) + formatted(b, ctx)) =~= seq![a[0]]
                    + formatted(a.skip(1), ctx) + formatted(b, ctx));
            },
        }
    }
    law_slots_have_one_of_three_shapes(b, Seq::empty());
    if c != '{' {
        let more = seq![c] + a;
        law_slots_have_one_of_three_shapes(more, Seq::empty());
        assert(slot(more) is None);
        assert(more.skip(1) =~= a);
    }
}

/// A slot does not reach across an opening brace.
#[verifier::rlimit(40)]
#[verifier::spinoff_prover]
proof fn lemma_slot_stays(a: Seq<char>, b: Seq<char>)
    requires
        a.len() > 0,
        b.len() == 0 || b[0] == '{',
    ensures
        slot(a + b) == slot(a),
{
    let both = a + b;
    law_slots_have_one_of_three_shapes(both, Seq::empty());
    law_slots_have_one_of_three_shapes(a, Seq::empty());
    reveal_strlit("{N}");
    reveal_strlit("{n}");
    reveal_strlit("{n:0");
    if b.len() == 0 {
        assert(both =~= a);
    } else {
        if let Some(s) = slot(both) {
            if s.len > a.len() {
                assert(both[a.len() as int] == '{');
                assert(false);
            }
        }
        assert(a.len() >= 3 ==> both.take(3) =~= a.take(3));
        assert(a.len() >= 4 ==> both.take(4) =~= a.take(4));
        if text::starts_with(a, "{n:0"@) {
            lemma_digit_run_kept(a.skip(4), b);
            assert(both.skip(4) =~= a.skip(4) + b);
            let k = digit_run(a.skip(4)) as int;
            lemma_digit_run(a.skip(4));
            if k > 0 && 4 + k < a.len() {
                assert(both[4 + k] == a[4 + k]);
                assert(both.subrange(4, 4 + k) =~= a.subrange(4, 4 + k));
            }
        }
        if a.len() < 4 && text::starts_with(both, "{n:0"@) {
            assert(both.take(4)[a.len() as int] == '{');
        }
        if a.len() < 3 && (text::starts_with(both, "{n}"@) || text::starts_with(both, "{N}"@)) {
            assert(both.take(3)[a.len() as int] == '{');
        }
    }
}

proof fn lemma_digit_run_kept(a: Seq<char>, b: Seq<char>)
    requires
        b.len() == 0 || b[0] == '{',
    ensures
        digit_run(a + b) == digit_run(a),
    decreases a.len(),
{
    if a.len() == 0 {
        assert(a + b =~= b);
    } else {
        assert((a + b).skip(1) =~= a.skip(1) + b);
        lemma_digit_run_kept(a.skip(1), b);
    }
}

/// A counter is the number with as many zeros before it as its width asks for, and
/// no more: it is as wide as the number or as the width, whichever is more. Where the
/// width is up to the directory, that is the width of the number of its entries, and
/// at least two.
pub proof fn law_counters_are_as_wide_as_asked(slot: Slot, ctx: CounterContext)
    ensures
        ({
            let shown = counter(slot, ctx);
            let number = text::decimal(ctx.n as nat);
            let count = text::decimal(ctx.dir_count as nat).len();
            let width = match slot.width {
                Some(w) => w,
                None => if count < 2 {
                    2
                } else {
                    count
                },
            };
            &&& text::ends_with(shown, number)
            &&& shown.len() == if number.len() < width {
                width
            } else {
                number.len()
            }
            &&& forall|i: int|
                0 <= i < shown.len() - number.len() ==> #[trigger] shown[i] == '0'
        }),
{
    let number = text::decimal(ctx.n as nat);
    let shown = counter(slot, ctx);
    assert(shown.skip(shown.len() - number.len()) =~= number);
}

// ---- computing them --------------------------------------------------------------

proof fn lemma_number_grows(digits: Seq<char>, n: int)
    requires
        0 <= n <= digits.len(),
    ensures
        text::number_of(digits.take(n)) <= text::number_of(digits),
    decreases digits.len() - n,
{
    if n < digits.len() {
        lemma_number_grows(digits, n + 1);
        assert(digits.take(n + 1).drop_last() == digits.take(n));
    } else {
        assert(digits.take(n) == digits);
    }
}

/// The width that the characters from `from` up to `to` ask for.
fn parse_width(chars: &Vec<char>, from: usize, to: usize) -> (width: usize)
    requires
        from <= to <= chars@.len(),
    ensures
        width == width_of(chars@.subrange(from as int, to as int)),
{
    let ghost digits = chars@.subrange(from as int, to as int);
    let mut width: usize = 0;
    assert(digits.take(0) == Seq::<char>::empty());
    for i in from..to
        invariant
            from <= to <= chars@.len(),
            digits == chars@.subrange(from as int, to as int),
            width == text::number_of(digits.take(i - from)),
            forall|k: int| 0 <= k < i - from ==> text::is_digit(#[trigger] digits[k]),
    {
        let c = chars[i];
        assert(digits[i - from] == c);
        assert(digits.take(i - from + 1).drop_last() == digits.take(i - from));
        if !('0' <= c && c <= '9') {
            return 0;
        }
        let d: usize = (c as u8 - 48u8) as usize;
        proof {
            lemma_number_grows(digits, i - from + 1);
        }
        if width > (usize::MAX - d) / 10 {
            assert(width * 10 + d > usize::MAX) by (nonlinear_arith)
                requires
                    width > (usize::MAX - d) / 10,
            ;
            return 0;
        }
        assert(width * 10 + d <= usize::MAX) by (nonlinear_arith)
            requires
                width <= (usize::MAX - d) / 10,
        ;
        width = width * 10 + d;
    }
    assert(digits.take(to - from) == digits);
    width
}

fn run_of_digits(chars: &Vec<char>, from: usize) -> (k: usize)
    requires
        from <= chars@.len(),
    ensures
        k == digit_run(chars@.skip(from as int)),
        from + k <= chars@.len(),
{
    let mut k: usize = 0;
    while from + k < chars.len() && is_decimal_digit(chars[from + k])
        invariant
            from + k <= chars.len(),
            digit_run(chars@.skip(from as int)) == k + digit_run(chars@.skip(from + k)),
        decreases chars@.len() - from - k,
    {
        assert(chars@.skip(from + k).skip(1) == chars@.skip(from + k + 1));
        k = k + 1;
    }
    k
}

/// The slot at `at`: how many characters mark it, and the width it asks for.
fn slot_at(chars: &Vec<char>, at: usize) -> (found: Option<(usize, Option<usize>)>)
    requires
        at < chars@.len(),
    ensures
        found is Some <==> slot(chars@.skip(at as int)) is Some,
        found matches Some(s) ==> {
            &&& s.0 == slot(chars@.skip(at as int))->Some_0.len
            &&& 0 < s.0 <= chars@.len() - at
            &&& s.1 is Some <==> slot(chars@.skip(at as int))->Some_0.width is Some
            &&& s.1 matches Some(w) ==> slot(chars@.skip(at as int))->Some_0.width == Some(
                w as nat,
            )
        },
{
    let ghost rest = chars@.skip(at as int);
    proof {
        reveal_strlit("{N}");
        reveal_strlit("{n}");
        reveal_strlit("{n:0");
    }
    if text::chars_start_with(chars, at, "{N}") {
        Some((3, None))
    } else if text::chars_start_with(chars, at, "{n}") {
        Some((3, Some(0)))
    } else if text::chars_start_with(chars, at, "{n:0") {
        assert(at + 4 <= chars.len());
        let from: usize = at + 4;
        let k = run_of_digits(chars, from);
        assert(rest.skip(4) == chars@.skip(from as int));
        if k > 0 && k < chars.len() - from && chars[from + k] == '}' {
            let width = parse_width(chars, from, from + k);
            assert(rest.subrange(4, 4 + k) == chars@.subrange(from as int, from + k));
            assert(rest[4 + k] == chars@[from + k]);
            Some((5 + k, Some(width)))
        } else {
            assert(4 + k < rest.len() ==> rest[4 + k] == chars@[from + k]);
            None
        }
    } else {
        None
    }
}

/// Whether the template refers to the counter.
pub fn has_counter_placeholder(s: &str) -> (has: bool)
    ensures
        has == has_slot(s@),
{
    let chars = text::chars_of(s);
    let mut i: usize = 0;
    assert(chars@.skip(0) == s@);
    while i < chars.len()
        invariant
            i <= chars@.len(),
            has_slot(s@) == has_slot(chars@.skip(i as int)),
        decreases chars@.len() - i,
    {
        assert(chars@.skip(i as int).skip(1) == chars@.skip(i + 1));
        if slot_at(&chars, i).is_some() {
            return true;
        }
        i = i + 1;
    }
    false
}

/// The template with the counter in each of its slots.
pub fn format_counter(template: &str, ctx: CounterContext) -> (out: String)
    ensures
        out@ == formatted(template@, ctx),
{
    let chars = text::chars_of(template);
    let mut out = String::new();
    let mut i: usize = 0;
    assert(chars@.skip(0) == template@);
    while i < chars.len()
        invariant
            i <= chars@.len(),
            formatted(template@, ctx) == out@ + formatted(chars@.skip(i as int), ctx),
        decreases chars@.len() - i,
    {
        let ghost rest = chars@.skip(i as int);
        let ghost before = out@;
        match slot_at(&chars, i) {
            Some((len, width)) => {
                let digits: usize = match width {
                    Some(w) => w,
                    None => {
                        let count = text::decimal_chars(ctx.dir_count as u64);
                        if count.len() < 2 {
                            2
                        } else {
                            count.len()
                        }
                    },
                };
                let number = text::padded_decimal(ctx.n as u64, digits);
                out.push_str(number.as_str());
                assert(rest.skip(len as int) == chars@.skip(i + len));
                assert(before + (number@ + formatted(rest.skip(len as int), ctx)) == out@
                    + formatted(rest.skip(len as int), ctx));
                i = i + len;
            },
            None => {
                out.push(chars[i]);
                assert(rest.skip(1) == chars@.skip(i + 1));
                assert(before + (seq![rest[0]] + formatted(rest.skip(1), ctx)) == out@ + formatted(
                    rest.skip(1),
                    ctx,
                ));
                i = i + 1;
            },
        }
    }
    assert(formatted(chars@.skip(i as int), ctx) == Seq::<char>::empty());
    out
}

/// What becomes of a name.
pub fn apply(name: &str, opts: &TransformOptions, ctx: CounterContext) -> (out: String)
    ensures
        out@ == transformed(name@, *opts, ctx),
{
    let mut s = if opts.lower {
        text::to_lowercase(name)
    } else if opts.upper {
        text::to_uppercase(name)
    } else {
        name.to_string()
    };
    if let Some(suffix) = &opts.append {
        let suffix = format_counter(suffix.as_str(), ctx);
        s.push_str(suffix.as_str());
    }
    if let Some(prefix) = &opts.prepend {
        let mut whole = format_counter(prefix.as_str(), ctx);
        whole.push_str(s.as_str());
        s = whole;
    }
    s
}

/// Digits that are not those from 0 to 9, or that write a number out of range, ask for
/// no width, and among the ASCII characters no others count as digits.
pub proof fn law_strange_digits_ask_for_no_width(digits: Seq<char>, c: char)
    ensures
        (exists|i: int| 0 <= i < digits.len() && !text::is_digit(#[trigger] digits[i]))
            ==> width_of(digits) == 0,
        text::number_of(digits) > usize::MAX ==> width_of(digits) == 0,
        (forall|i: int| 0 <= i < digits.len() ==> text::is_digit(#[trigger] digits[i]))
            && text::number_of(digits) <= usize::MAX ==> width_of(digits) == text::number_of(
            digits,
        ),
        (c as u32) < 128 ==> (counts_as_digit(c) <==> '0' <= c <= '9'),
        (c as u32) >= 128 ==> (counts_as_digit(c) <==> decimal_digit(c)),
{
}

/// The template for numbered names is the counter, as wide as the directory asks for,
/// and an underscore.
pub proof fn law_numbered_names_begin_with_the_counter(ctx: CounterContext)
    ensures
        formatted(SMART_COUNTER_TEMPLATE@, ctx) == counter(Slot { len: 3, width: None }, ctx).push(
            '_',
        ),
{
    let t = SMART_COUNTER_TEMPLATE@;
    reveal_strlit("{N}_");
    assert(t =~= seq!['{', 'N', '}'] + seq!['_']);
    law_slots_have_one_of_three_shapes(t, seq!['_']);
    law_templates_are_formatted_piece_by_piece(Seq::empty(), t, '_', ctx);
    assert(t.skip(3) =~= seq!['_']);
    assert(seq!['_'] + Seq::<char>::empty() =~= seq!['_']);
    assert(formatted(Seq::empty(), ctx) =~= Seq::<char>::empty());
    assert(counter(Slot { len: 3, width: None }, ctx) + seq!['_'] =~= counter(
        Slot { len: 3, width: None },
        ctx,
    ).push('_'));
}

} // verus!
