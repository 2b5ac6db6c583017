//! The help text, and the styles in it.

use vstd::prelude::*;
use crate::text;

verus! {

/// What the program is for, and its options. A word in braces stands for a style.
pub const HELP: &'static str = "\
{yellow}{bold}Usage{reset}

  {green}{bold}ren{reset} {red}[options]{reset} {blue}<find> <replace>{reset} {magenta}[<path>…]{reset}

    {blue}<find>{reset}     String to find in names
    {blue}<replace>{reset}  String to replace with
    {magenta}<path>…{reset}    Paths to walk {grey}(optional){reset}

{yellow}{bold}Filter{reset}

  {red}-f{reset}, {red}--files {dim}<glob>{reset}        Smart glob patterns to match files against
  {red}-H{reset}, {red}--hidden{reset}              Include hidden files and directories
  {red}-0{reset}, {red}--null{reset}                Read NUL-separated filenames from stdin

{yellow}{bold}Replace{reset}

  {red}-e{reset}, {red}--expression {dim}<f> <r>{reset}  Find/replace expression
  {red}-S{reset}, {red}--smart{reset}               Replace all case variants of the pattern

{yellow}{bold}Regex{reset}

  {red}-G{reset}, {red}--greedy{reset}              Use greedy matching for regular expressions
  {red}-i{reset}, {red}--ignore-case{reset}         Case-insensitive matching
  {red}-r{reset}, {red}--regex{reset}               Treat patterns as regular expressions
  {red}-w{reset}, {red}--word-regexp{reset}         Match only whole words

{yellow}{bold}Scope{reset}

  {red}-R{reset}, {red}--recursive{reset}           Recurse into subdirectories
  {red}-d{reset}, {red}--include-dirs{reset}        Also rename directories
  {red}-x{reset}, {red}--include-extension{reset}   Include extension in matching and replacement
  {red}-X{reset}, {red}--only-extension{reset}      Match the file extension only

{yellow}{bold}Transforms{reset}

  {red}-L{reset}, {red}--lower{reset}               Lowercase names
  {red}-U{reset}, {red}--upper{reset}               Uppercase names

  {red}-P{reset}, {red}--prepend {dim}<fmt>{reset}       Prepend a string or template
  {red}-A{reset}, {red}--append {dim}<fmt>{reset}        Append a string or template

{yellow}{bold}Behavior{reset}

      {red}--create-dirs{reset}         Create missing parent directories

  {red}-l{reset}, {red}--list-files{reset}          Print matching file paths (no rename)

  {red}-n{reset}, {red}--dry-run{reset}             Show what would be changed without renaming
  {red}-W{reset}, {red}--write{reset}               Apply renames to disk {grey}(default){reset}
  {red}-p{reset}, {red}--preview{reset}             Preview the changes before applying them

{yellow}{bold}Miscellaneous{reset}

  {red}-V{reset}, {red}--version{reset}             Print version

  {red}-h{reset}                        Print short help
      {red}--help{reset}                Print long help with examples
";

/// Examples of what the program can be used for.
pub const EXAMPLES: &'static str = "
{yellow}{bold}Examples{reset}

  {grey}# Replace \"foo\" with \"bar\" anywhere in names (cwd, files only){reset}
  {green}${reset} ren foo bar

  {grey}# Recurse into subdirectories{reset}
  {green}${reset} ren -R foo bar

  {grey}# Also rename matching directories{reset}
  {green}${reset} ren --include-dirs foo bar

  {grey}# Restrict to .rs files{reset}
  {green}${reset} ren -f rs old new

  {grey}# List every .go file (no rename){reset}
  {green}${reset} ren -f go -l

  {grey}# Stem-only matching is the default (api_v1.json → api_v2.json){reset}
  {green}${reset} ren v1 v2

  {grey}# Include extensions in matching and replacement{reset}
  {green}${reset} ren -x rs txt

  {grey}# Match only the extension; preserve the stem (foo.rs → foo.txt){reset}
  {green}${reset} ren -X rs txt

  {grey}# Smart-rename across case variants:{reset}
  {grey}#  \"foo_bar\" → \"hello_world\", \"FooBar\" → \"HelloWorld\", etc.{reset}
  {green}${reset} ren --smart foo_bar hello_world

  {grey}# Regex rename: replace test_ prefix with spec_{reset}
  {green}${reset} ren --regex '^test_' 'spec_'

  {grey}# Plan only, don't touch the filesystem{reset}
  {green}${reset} ren --dry-run foo bar

  {grey}# Interactive preview, applying only the accepted entries{reset}
  {green}${reset} ren --preview foo bar

  {grey}# Apply multiple replacements in a single pass{reset}
  {green}${reset} ren -e foo bar -e baz qux

  {grey}# Read filenames from a pipeline (auto-detected when no path is given){reset}
  {green}${reset} fd -t f '\\.tmp$' | ren .tmp .bak

  {grey}# NUL-separated for paths with newlines or odd characters{reset}
  {green}${reset} fd -t f -0 | ren -0 foo bar

  {grey}# Move into new subdirectories, creating parents as needed{reset}
  {green}${reset} ren --create-dirs --regex '^(.*)\\.log$' 'logs/$1.log'

  {grey}# Number all files: 01_foo.txt, 02_bar.txt, ... (smart per-dir width){reset}
  {green}${reset} ren --prepend '{N}_'

  {grey}# Custom counter format with explicit zero-padding{reset}
  {green}${reset} ren --prepend='{n:03}_'

  {grey}# Counter as a suffix on the stem (foo.txt → foo-1.txt, ...){reset}
  {green}${reset} ren --append '-{n}'

  {grey}# Lowercase every name in cwd{reset}
  {green}${reset} ren --lower

  {grey}# Compose: find/replace → lower → append → prepend (fixed order){reset}
  {grey}# (use -e for find/replace when combining with a transform){reset}
  {green}${reset} ren --prepend '{N}_' --lower -e foo bar
";

// ---- styles ----------------------------------------------------------------------

/// A style in a text: how many characters name it, and the characters that switch
/// it on.
pub struct Style {
    pub len: int,
    pub code: Seq<char>,
}

/// The style that the text begins with, if it does.
pub open spec fn style(t: Seq<char>) -> Option<Style> {
    if text::starts_with(t, "{bold}"@) {
        Some(Style { len: 6, code: "\x1b[1m"@ })
    } else if text::starts_with(t, "{dim}"@) {
        Some(Style { len: 5, code: "\x1b[2m"@ })
    } else if text::starts_with(t, "{red}"@) {
        Some(Style { len: 5, code: "\x1b[31m"@ })
    } else if text::starts_with(t, "{green}"@) {
        Some(Style { len: 7, code: "\x1b[32m"@ })
    } else if text::starts_with(t, "{yellow}"@) {
        Some(Style { len: 8, code: "\x1b[33m"@ })
    } else if text::starts_with(t, "{blue}"@) {
        Some(Style { len: 6, code: "\x1b[34m"@ })
    } else if text::starts_with(t, "{magenta}"@) {
        Some(Style { len: 9, code: "\x1b[35m"@ })
    } else if text::starts_with(t, "{grey}"@) {
        Some(Style { len: 6, code: "\x1b[38;5;248m"@ })
    } else if text::starts_with(t, "{reset}"@) {
        Some(Style { len: 7, code: "\x1b[m"@ })
    } else {
        None
    }
}

/// A text with its styles switched on, or left out.
pub open spec fn styled(t: Seq<char>, color: bool) -> Seq<char>
    decreases t.len(),
{
    if t.len() == 0 {
        Seq::empty()
    } else {
        proof {
            lemma_style_fits(t);
        }
        match style(t) {
            Some(s) => (if color {
                s.code
            } else {
                Seq::empty()
            }) + styled(t.skip(s.len), color),
            None => seq![t[0]] + styled(t.skip(1), color),
        }
    }
}

/// A style is named by some of the characters that the text begins with.
pub proof fn lemma_style_fits(t: Seq<char>)
    ensures
        style(t) matches Some(s) ==> 0 < s.len <= t.len(),
{
    reveal_strlit("{bold}");
    reveal_strlit("{dim}");
    reveal_strlit("{red}");
    reveal_strlit("{green}");
    reveal_strlit("{yellow}");
    reveal_strlit("{blue}");
    reveal_strlit("{magenta}");
    reveal_strlit("{grey}");
    reveal_strlit("{reset}");
}

fn style_at(chars: &Vec<char>, at: usize) -> (found: Option<(usize, &'static str)>)
    requires
        at < chars@.len(),
    ensures
        found is Some <==> style(chars@.skip(at as int)) is Some,
        found matches Some(s) ==> {
            &&& s.0 == style(chars@.skip(at as int))->0.len
            &&& s.1@ == style(chars@.skip(at as int))->0.code
            &&& 0 < s.0 <= chars@.len() - at
        },
{
    proof {
        lemma_style_fits(chars@.skip(at as int));
    }
    if text::chars_start_with(chars, at, "{bold}") {
        Some((6, "\x1b[1m"))
    } else if text::chars_start_with(chars, at, "{dim}") {
        Some((5, "\x1b[2m"))
    } else if text::chars_start_with(chars, at, "{red}") {
        Some((5, "\x1b[31m"))
    } else if text::chars_start_with(chars, at, "{green}") {
        Some((7, "\x1b[32m"))
    } else if text::chars_start_with(chars, at, "{yellow}") {
        Some((8, "\x1b[33m"))
    } else if text::chars_start_with(chars, at, "{blue}") {
        Some((6, "\x1b[34m"))
    } else if text::chars_start_with(chars, at, "{magenta}") {
        Some((9, "\x1b[35m"))
    } else if text::chars_start_with(chars, at, "{grey}") {
        Some((6, "\x1b[38;5;248m"))
    } else if text::chars_start_with(chars, at, "{reset}") {
        Some((7, "\x1b[m"))
    } else {
        None
    }
}

/// The text with its styles switched on, or left out.
pub fn apply_styles(template: &str, color: bool) -> (out: String)
    ensures
        out@ == styled(template@, color),
{
    let chars = text::chars_of(template);
    let mut out = String::new();
    let mut i: usize = 0;
    assert(chars@.skip(0) == template@);
    assert(out@ + styled(template@, color) == styled(template@, color));
    while i < chars.len()
        invariant
            i <= chars@.len(),
            styled(template@, color) == out@ + styled(chars@.skip(i as int), color),
        decreases chars@.len() - i,
    {
        let ghost rest = chars@.skip(i as int);
        let ghost before = out@;
        match style_at(&chars, i) {
            Some((len, code)) => {
                if color {
                    out.push_str(code);
                }
                assert(rest.skip(len as int) == chars@.skip(i + len));
                let ghost shown = if color {
                    code@
                } else {
                    Seq::<char>::empty()
                };
                assert(out@ == before + shown);
                assert(before + (shown + styled(rest.skip(len as int), color)) == out@ + styled(
                    rest.skip(len as int),
                    color,
                ));
                i = i + len;
            },
            None => {
                out.push(chars[i]);
                assert(rest.skip(1) == chars@.skip(i + 1));
                assert(before + (seq![rest[0]] + styled(rest.skip(1), color)) == out@ + styled(
                    rest.skip(1),
                    color,
                ));
                i = i + 1;
            },
        }
    }
    assert(styled(chars@.skip(i as int), color) == Seq::<char>::empty());
    out
}

/// The help text, with examples if it is to be long.
pub fn help_text(long: bool, color: bool) -> (out: String)
    ensures
        out@ == styled(HELP@, color) + (if long {
            styled(EXAMPLES@, color)
        } else {
            Seq::empty()
        }),
{
    let mut out = apply_styles(HELP, color);
    assert(out@ + Seq::<char>::empty() == out@);
    if long {
        let examples = apply_styles(EXAMPLES, color);
        out.push_str(examples.as_str());
    }
    out
}

/// A text without braces has no styles, and is shown as it is.
pub proof fn law_plain_text_is_shown_as_it_is(t: Seq<char>, color: bool)
    requires
        !t.contains('{'),
    ensures
        styled(t, color) == t,
    decreases t.len(),
{
    if t.len() > 0 {
        let rest = t.skip(1);
        if rest.contains('{') {
            let i = choose|i: int| 0 <= i < rest.len() && rest[i] == '{';
            assert(t[i + 1] == '{');
        }
        law_plain_text_is_shown_as_it_is(rest, color);
        lemma_styles_begin_with_a_brace(t);
        if t[0] == '{' {
            assert(t.contains('{'));
        }
        assert(seq![t[0]] + rest == t);
    }
}

proof fn lemma_styles_begin_with_a_brace(t: Seq<char>)
    ensures
        style(t) is Some ==> t[0] == '{',
{
    reveal_strlit("{bold}");
    reveal_strlit("{dim}");
    reveal_strlit("{red}");
    reveal_strlit("{green}");
    reveal_strlit("{yellow}");
    reveal_strlit("{blue}");
    reveal_strlit("{magenta}");
    reveal_strlit("{grey}");
    reveal_strlit("{reset}");
    assert(text::starts_with(t, "{bold}"@) ==> t.take(6)[0] == '{');
    assert(text::starts_with(t, "{dim}"@) ==> t.take(5)[0] == '{');
    assert(text::starts_with(t, "{red}"@) ==> t.take(5)[0] == '{');
    assert(text::starts_with(t, "{green}"@) ==> t.take(7)[0] == '{');
    assert(text::starts_with(t, "{yellow}"@) ==> t.take(8)[0] == '{');
    assert(text::starts_with(t, "{blue}"@) ==> t.take(6)[0] == '{');
    assert(text::starts_with(t, "{magenta}"@) ==> t.take(9)[0] == '{');
    assert(text::starts_with(t, "{grey}"@) ==> t.take(6)[0] == '{');
    assert(text::starts_with(t, "{reset}"@) ==> t.take(7)[0] == '{');
}

/// Each style is switched on by its own code where color is wanted, and left out where
/// it is not; what follows it is gone through in the same way.
#[verifier::rlimit(40)]
#[verifier::spinoff_prover]
pub proof fn law_styles_have_codes(rest: Seq<char>)
    ensures
        styled("{bold}"@ + rest, true) == "\x1b[1m"@ + styled(rest, true),
        styled("{bold}"@ + rest, false) == styled(rest, false),
        styled("{dim}"@ + rest, true) == "\x1b[2m"@ + styled(rest, true),
        styled("{dim}"@ + rest, false) == styled(rest, false),
        styled("{red}"@ + rest, true) == "\x1b[31m"@ + styled(rest, true),
        styled("{red}"@ + rest, false) == styled(rest, false),
        styled("{green}"@ + rest, true) == "\x1b[32m"@ + styled(rest, true),
        styled("{green}"@ + rest, false) == styled(rest, false),
        styled("{yellow}"@ + rest, true) == "\x1b[33m"@ + styled(rest, true),
        styled("{yellow}"@ + rest, false) == styled(rest, false),
        styled("{blue}"@ + rest, true) == "\x1b[34m"@ + styled(rest, true),
        styled("{blue}"@ + rest, false) == styled(rest, false),
        styled("{magenta}"@ + rest, true) == "\x1b[35m"@ + styled(rest, true),
        styled("{magenta}"@ + rest, false) == styled(rest, false),
        styled("{grey}"@ + rest, true) == "\x1b[38;5;248m"@ + styled(rest, true),
        styled("{grey}"@ + rest, false) == styled(rest, false),
        styled("{reset}"@ + rest, true) == "\x1b[m"@ + styled(rest, true),
        styled("{reset}"@ + rest, false) == styled(rest, false),
{
    reveal_strlit("{bold}");
    reveal_strlit("{dim}");
    reveal_strlit("{red}");
    reveal_strlit("{green}");
    reveal_strlit("{yellow}");
    reveal_strlit("{blue}");
    reveal_strlit("{magenta}");
    reveal_strlit("{grey}");
    reveal_strlit("{reset}");
    let t = "{bold}"@ + rest;
    assert(t.take(6) =~= "{bold}"@);
    assert(t.skip(6) =~= rest);
    assert(style(t) == Some(Style { len: 6, code: "\x1b[1m"@ }));
    assert(Seq::<char>::empty() + styled(rest, false) =~= styled(rest, false));
    let t = "{dim}"@ + rest;
    assert(t.take(5) =~= "{dim}"@);
    assert(t.skip(5) =~= rest);
    if text::starts_with(t, "{bold}"@) {
        assert(t.take(6)[1] == 'b');
        assert(t[1] == 'd');
    }
    assert(style(t) == Some(Style { len: 5, code: "\x1b[2m"@ }));
    assert(Seq::<char>::empty() + styled(rest, false) =~= styled(rest, false));
    let t = "{red}"@ + rest;
    assert(t.take(5) =~= "{red}"@);
    assert(t.skip(5) =~= rest);
    if text::starts_with(t, "{bold}"@) {
        assert(t.take(6)[1] == 'b');
        assert(t[1] == 'r');
    }
    if text::starts_with(t, "{dim}"@) {
        assert(t.take(5)[1] == 'd');
        assert(t[1] == 'r');
    }
    assert(style(t) == Some(Style { len: 5, code: "\x1b[31m"@ }));
    assert(Seq::<char>::empty() + styled(rest, false) =~= styled(rest, false));
    let t = "{green}"@ + rest;
    assert(t.take(7) =~= "{green}"@);
    assert(t.skip(7) =~= rest);
    if text::starts_with(t, "{bold}"@) {
        assert(t.take(6)[1] == 'b');
        assert(t[1] == 'g');
    }
    if text::starts_with(t, "{dim}"@) {
        assert(t.take(5)[1] == 'd');
        assert(t[1] == 'g');
    }
    if text::starts_with(t, "{red}"@) {
        assert(t.take(5)[1] == 'r');
        assert(t[1] == 'g');
    }
    assert(style(t) == Some(Style { len: 7, code: "\x1b[32m"@ }));
    assert(Seq::<char>::empty() + styled(rest, false) =~= styled(rest, false));
    let t = "{yellow}"@ + rest;
    assert(t.take(8) =~= "{yellow}"@);
    assert(t.skip(8) =~= rest);
    if text::starts_with(t, "{bold}"@) {
        assert(t.take(6)[1] == 'b');
        assert(t[1] == 'y');
    }
    if text::starts_with(t, "{dim}"@) {
        assert(t.take(5)[1] == 'd');
        assert(t[1] == 'y');
    }
    if text::starts_with(t, "{red}"@) {
        assert(t.take(5)[1] == 'r');
        assert(t[1] == 'y');
    }
    if text::starts_with(t, "{green}"@) {
        assert(t.take(7)[1] == 'g');
        assert(t[1] == 'y');
    }
    assert(style(t) == Some(Style { len: 8, code: "\x1b[33m"@ }));
    assert(Seq::<char>::empty() + styled(rest, false) =~= styled(rest, false));
    let t = "{blue}"@ + rest;
    assert(t.take(6) =~= "{blue}"@);
    assert(t.skip(6) =~= rest);
    if text::starts_with(t, "{bold}"@) {
        assert(t.take(6)[2] == 'o');
        assert(t[2] == 'l');
    }
    if text::starts_with(t, "{dim}"@) {
        assert(t.take(5)[1] == 'd');
        assert(t[1] == 'b');
    }
    if text::starts_with(t, "{red}"@) {
        assert(t.take(5)[1] == 'r');
        assert(t[1] == 'b');
    }
    if text::starts_with(t, "{green}"@) {
        assert(t.take(7)[1] == 'g');
        assert(t[1] == 'b');
    }
    if text::starts_with(t, "{yellow}"@) {
        assert(t.take(8)[1] == 'y');
        assert(t[1] == 'b');
    }
    assert(style(t) == Some(Style { len: 6, code: "\x1b[34m"@ }));
    assert(Seq::<char>::empty() + styled(rest, false) =~= styled(rest, false));
    let t = "{magenta}"@ + rest;
    assert(t.take(9) =~= "{magenta}"@);
    assert(t.skip(9) =~= rest);
    if text::starts_with(t, "{bold}"@) {
        assert(t.take(6)[1] == 'b');
        assert(t[1] == 'm');
    }
    if text::starts_with(t, "{dim}"@) {
        assert(t.take(5)[1] == 'd');
        assert(t[1] == 'm');
    }
    if text::starts_with(t, "{red}"@) {
        assert(t.take(5)[1] == 'r');
        assert(t[1] == 'm');
    }
    if text::starts_with(t, "{green}"@) {
        assert(t.take(7)[1] == 'g');
        assert(t[1] == 'm');
    }
    if text::starts_with(t, "{yellow}"@) {
        assert(t.take(8)[1] == 'y');
        assert(t[1] == 'm');
    }
    if text::starts_with(t, "{blue}"@) {
        assert(t.take(6)[1] == 'b');
        assert(t[1] == 'm');
    }
    assert(style(t) == Some(Style { len: 9, code: "\x1b[35m"@ }));
    assert(Seq::<char>::empty() + styled(rest, false) =~= styled(rest, false));
    let t = "{grey}"@ + rest;
    assert(t.take(6) =~= "{grey}"@);
    assert(t.skip(6) =~= rest);
    if text::starts_with(t, "{bold}"@) {
        assert(t.take(6)[1] == 'b');
        assert(t[1] == 'g');
    }
    if text::starts_with(t, "{dim}"@) {
        assert(t.take(5)[1] == 'd');
        assert(t[1] == 'g');
    }
    if text::starts_with(t, "{red}"@) {
        assert(t.take(5)[1] == 'r');
        assert(t[1] == 'g');
    }
    if text::starts_with(t, "{green}"@) {
        assert(t.take(7)[4] == 'e');
        assert(t[4] == 'y');
    }
    if text::starts_with(t, "{yellow}"@) {
        assert(t.take(8)[1] == 'y');
        assert(t[1] == 'g');
    }
    if text::starts_with(t, "{blue}"@) {
        assert(t.take(6)[1] == 'b');
        assert(t[1] == 'g');
    }
    if text::starts_with(t, "{magenta}"@) {
        assert(t.take(9)[1] == 'm');
        assert(t[1] == 'g');
    }
    assert(style(t) == Some(Style { len: 6, code: "\x1b[38;5;248m"@ }));
    assert(Seq::<char>::empty() + styled(rest, false) =~= styled(rest, false));
    let t = "{reset}"@ + rest;
    assert(t.take(7) =~= "{reset}"@);
    assert(t.skip(7) =~= rest);
    if text::starts_with(t, "{bold}"@) {
        assert(t.take(6)[1] == 'b');
        assert(t[1] == 'r');
    }
    if text::starts_with(t, "{dim}"@) {
        assert(t.take(5)[1] == 'd');
        assert(t[1] == 'r');
    }
    if text::starts_with(t, "{red}"@) {
        assert(t.take(5)[3] == 'd');
        assert(t[3] == 's');
    }
    if text::starts_with(t, "{green}"@) {
        assert(t.take(7)[1] == 'g');
        assert(t[1] == 'r');
    }
    if text::starts_with(t, "{yellow}"@) {
        assert(t.take(8)[1] == 'y');
        assert(t[1] == 'r');
    }
    if text::starts_with(t, "{blue}"@) {
        assert(t.take(6)[1] == 'b');
        assert(t[1] == 'r');
    }
    if text::starts_with(t, "{magenta}"@) {
        assert(t.take(9)[1] == 'm');
        assert(t[1] == 'r');
    }
    if text::starts_with(t, "{grey}"@) {
        assert(t.take(6)[1] == 'g');
        assert(t[1] == 'r');
    }
    assert(style(t) == Some(Style { len: 7, code: "\x1b[m"@ }));
    assert(Seq::<char>::empty() + styled(rest, false) =~= styled(rest, false));
}

/// A style begins with an opening brace, and there is no other in it.
#[verifier::rlimit(40)]
#[verifier::spinoff_prover]
proof fn lemma_style_shape(t: Seq<char>)
    ensures
        style(t) matches Some(s) ==> t[0] == '{' && forall|i: int| 0 < i < s.len ==> t[i] != '{',
{
    lemma_style_fits(t);
    reveal_strlit("{bold}");
    reveal_strlit("{dim}");
    reveal_strlit("{red}");
    reveal_strlit("{green}");
    reveal_strlit("{yellow}");
    reveal_strlit("{blue}");
    reveal_strlit("{magenta}");
    reveal_strlit("{grey}");
    reveal_strlit("{reset}");
    if text::starts_with(t, "{bold}"@) {
        assert forall|i: int| 0 <= i < 6 implies t[i] == "{bold}"@[i] by {
            assert(t.take(6)[i] == t[i]);
        }
    }
    if text::starts_with(t, "{dim}"@) {
        assert forall|i: int| 0 <= i < 5 implies t[i] == "{dim}"@[i] by {
            assert(t.take(5)[i] == t[i]);
        }
    }
    if text::starts_with(t, "{red}"@) {
        assert forall|i: int| 0 <= i < 5 implies t[i] == "{red}"@[i] by {
            assert(t.take(5)[i] == t[i]);
        }
    }
    if text::starts_with(t, "{green}"@) {
        assert forall|i: int| 0 <= i < 7 implies t[i] == "{green}"@[i] by {
            assert(t.take(7)[i] == t[i]);
        }
    }
    if text::starts_with(t, "{yellow}"@) {
        assert forall|i: int| 0 <= i < 8 implies t[i] == "{yellow}"@[i] by {
            assert(t.take(8)[i] == t[i]);
        }
    }
    if text::starts_with(t, "{blue}"@) {
        assert forall|i: int| 0 <= i < 6 implies t[i] == "{blue}"@[i] by {
            assert(t.take(6)[i] == t[i]);
        }
    }
    if text::starts_with(t, "{magenta}"@) {
        assert forall|i: int| 0 <= i < 9 implies t[i] == "{magenta}"@[i] by {
            assert(t.take(9)[i] == t[i]);
        }
    }
    if text::starts_with(t, "{grey}"@) {
        assert forall|i: int| 0 <= i < 6 implies t[i] == "{grey}"@[i] by {
            assert(t.take(6)[i] == t[i]);
        }
    }
    if text::starts_with(t, "{reset}"@) {
        assert forall|i: int| 0 <= i < 7 implies t[i] == "{reset}"@[i] by {
            assert(t.take(7)[i] == t[i]);
        }
    }
}

/// What comes before an opening brace is styled by itself, and a character that is no
/// opening brace stays as it is.
pub proof fn law_text_is_styled_piece_by_piece(a: Seq<char>, b: Seq<char>, c: char, color: bool)
    requires
        b.len() == 0 || b[0] == '{',
    ensures
        styled(a + b, color) == styled(a, color) + styled(b, color),
        c != '{' ==> styled(seq![c] + a, color) == seq![c] + styled(a, color),
    decreases a.len(),
{
    let both = a + b;
    if a.len() == 0 {
        assert(both =~= b);
        assert(styled(a, color) + styled(b, color) =~= styled(b, color));
    } else {
        lemma_style_stays(a, b);
        lemma_style_fits(a);
        match style(a) {
            Some(s) => {
                assert(both.skip(s.len) =~= a.skip(s.len) + b);
                law_text_is_styled_piece_by_piece(a.skip(s.len), b, c, color);
                let code = if color {
                    s.code
                } else {
                    Seq::empty()
                };
                assert(code + (styled(a.skip(s.len), color) + styled(b, color)) =~= code + styled(
                    a.skip(s.len),
                    color,
                ) + styled(b, color));
            },
            None => {
                assert(both.skip(1) =~= a.skip(1) + b);
                law_text_is_styled_piece_by_piece(a.skip(1), b, c, color);
                assert(seq![a[0]] + (styled(a.skip(1), color) + styled(b, color)) =~= seq![a[0]]
                    + styled(a.skip(1), color) + styled(b, color));
            },
        }
    }
    if c != '{' {
        let more = seq![c] + a;
        lemma_style_shape(more);
        assert(style(more) is None);
        assert(more.skip(1) =~= a);
    }
}

proof fn lemma_prefix_stays(a: Seq<char>, b: Seq<char>, word: Seq<char>)
    requires
        b.len() == 0 || b[0] == '{',
        a.len() > 0,
        forall|i: int| 0 < i < word.len() ==> word[i] != '{',
    ensures
        text::starts_with(a + b, word) == text::starts_with(a, word),
{
    let n = word.len() as int;
    if n <= a.len() {
        assert((a + b).take(n) =~= a.take(n));
    } else if text::starts_with(a + b, word) {
        assert((a + b).take(n)[a.len() as int] == b[0]);
    }
}

/// A style does not reach across an opening brace.
proof fn lemma_style_stays(a: Seq<char>, b: Seq<char>)
    requires
        a.len() > 0,
        b.len() == 0 || b[0] == '{',
    ensures
        style(a + b) == style(a),
{
    reveal_strlit("{bold}");
    reveal_strlit("{dim}");
    reveal_strlit("{red}");
    reveal_strlit("{green}");
    reveal_strlit("{yellow}");
    reveal_strlit("{blue}");
    reveal_strlit("{magenta}");
    reveal_strlit("{grey}");
    reveal_strlit("{reset}");
    lemma_prefix_stays(a, b, "{bold}"@);
    lemma_prefix_stays(a, b, "{dim}"@);
    lemma_prefix_stays(a, b, "{red}"@);
    lemma_prefix_stays(a, b, "{green}"@);
    lemma_prefix_stays(a, b, "{yellow}"@);
    lemma_prefix_stays(a, b, "{blue}"@);
    lemma_prefix_stays(a, b, "{magenta}"@);
    lemma_prefix_stays(a, b, "{grey}"@);
    lemma_prefix_stays(a, b, "{reset}"@);
}

} // verus!
