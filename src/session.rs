use crate::config::{applied, command_effect, opt_text, resolve, ConfigStorage, EntryModel};
use crate::layout::{generate_layout, lays_out, LayoutPlan};
use crate::tile::Params;
use vstd::string::StrSliceExecFns;
use crate::parse::{
    option_value, parse, parse_output, parse_tags, split_commands, split_spec, tags_option, tokens,
};
use crate::text::same_text;
use vstd::arithmetic::power2::{lemma2_to64, lemma_pow2_strictly_increases, lemma_pow2_unfold, pow2};
use vstd::prelude::*;

verus! {

/// A tag set with at most one tag: 0 (no tag) or a single bit below bit 31.
pub open spec fn is_single_tag(t: u32) -> bool {
    t == 0 || exists|i: nat| i < 31 && t == pow2(i)
}

/// Remembers the last single tag set seen, so that configurations can be stored per tag rather
/// than per combination of tags.
pub struct TagLog {
    pub last_tag: Option<u32>,
}

/// Whether `tag` is 0 or one of the bits 0 to 30 alone.
fn single_tag(tag: u32) -> (r: bool)
    ensures
        r == is_single_tag(tag),
{
    proof {
        lemma2_to64();
    }
    if tag == 0 {
        return true;
    }
    let mut bit: u32 = 1;
    let mut i: u32 = 0;
    while i < 31
        invariant
            i <= 31,
            bit == pow2(i as nat),
            pow2(31) == 0x8000_0000,
            forall|k: nat| k < i ==> tag != pow2(k),
        decreases 31 - i,
    {
        proof {
            lemma_pow2_strictly_increases(i as nat, 31);
        }
        if tag == bit {
            return true;
        }
        assert(pow2((i + 1) as nat) == 2 * pow2(i as nat)) by {
            lemma_pow2_unfold((i + 1) as nat);
        }
        bit = bit * 2;
        i = i + 1;
    }
    false
}

impl TagLog {
    pub fn new() -> (r: TagLog)
        ensures
            r.last_tag is None,
    {
        TagLog { last_tag: None }
    }

    /// Remembers `tag` if it is a single tag set.
    pub fn record_tags(&mut self, tag: u32)
        ensures
            final(self).last_tag == if is_single_tag(tag) {
                Some(tag)
            } else {
                old(self).last_tag
            },
    {
        if single_tag(tag) {
            self.last_tag = Some(tag);
        }
    }
}

/// The output a command was given for: `all` stands for every output.
pub open spec fn scope_output(o: Option<Seq<char>>) -> Option<Seq<char>> {
    match o {
        Some(s) => if s == "all"@ {
            None
        } else {
            Some(s)
        },
        None => None,
    }
}

/// The overrides after the commands in `text` run one after another: each is scoped by its
/// own `--tags` and `--output` options, or else by the scope of the command before it; the
/// first command falls back to `tags` and `output`. (The remainder after a command is always shorter than the text; the length
/// test only lets the definition recurse on it.)
pub open spec fn run_commands(
    es: Seq<EntryModel>,
    default_tags: Option<u32>,
    text: Seq<char>,
    output: Option<Seq<char>>,
) -> Seq<EntryModel>
    decreases text.len(),
{
    let (car, cdr) = split_spec(text);
    let tags = match tags_option(car) {
        Some(t) => Some(t),
        None => default_tags,
    };
    let out = match option_value(tokens(car), "--output"@) {
        Some(o) => Some(o),
        None => output,
    };
    let next = match command_effect(resolve(es, tags, out), parse(car)) {
        Some(c) => applied(es, tags, out, c),
        None => es,
    };
    match cdr {
        Some(rest) => if rest.len() < text.len() {
            run_commands(next, tags, rest, scope_output(out))
        } else {
            next
        },
        None => next,
    }
}

/// Whether every command in `text`, run as `run_commands` runs them, names something known.
pub open spec fn all_recognized(
    es: Seq<EntryModel>,
    default_tags: Option<u32>,
    text: Seq<char>,
    output: Option<Seq<char>>,
) -> bool
    decreases text.len(),
{
    let (car, cdr) = split_spec(text);
    let tags = match tags_option(car) {
        Some(t) => Some(t),
        None => default_tags,
    };
    let out = match option_value(tokens(car), "--output"@) {
        Some(o) => Some(o),
        None => output,
    };
    let effect = command_effect(resolve(es, tags, out), parse(car));
    let next = match effect {
        Some(c) => applied(es, tags, out, c),
        None => es,
    };
    effect is Some && match cdr {
        Some(rest) => if rest.len() < text.len() {
            all_recognized(next, tags, rest, scope_output(out))
        } else {
            true
        },
        None => true,
    }
}

/// What the layout generator keeps between requests.
pub struct Session {
    pub tag_log: TagLog,
    pub configs: ConfigStorage,
}

impl Session {
    pub fn new() -> (r: Session)
        ensures
            r.tag_log.last_tag is None,
            r.configs@ == Seq::<EntryModel>::empty(),
    {
        Session { tag_log: TagLog::new(), configs: ConfigStorage::new() }
    }

    /// Runs the commands in `cmd`, given for `tags` on `output` (`all` for every output). The
    /// first is scoped by the last single tag set seen and `output`, each later one by the
    /// scope of the one before, unless it names its own `--tags` or `--output`. False where
    /// one of them names nothing known (it changes nothing; the others still run).
    pub fn user_cmd<'a>(&mut self, cmd: &'a str, tags: Option<u32>, output: &'a str) -> (r: bool)
        ensures
            r == all_recognized(
                old(self).configs@,
                final(self).tag_log.last_tag,
                cmd@,
                scope_output(Some(output@)),
            ),
            final(self).tag_log.last_tag == match tags {
                Some(t) => if is_single_tag(t) {
                    Some(t)
                } else {
                    old(self).tag_log.last_tag
                },
                None => old(self).tag_log.last_tag,
            },
            final(self).configs@ == run_commands(
                old(self).configs@,
                final(self).tag_log.last_tag,
                cmd@,
                scope_output(Some(output@)),
            ),
    {
        if let Some(t) = tags {
            self.tag_log.record_tags(t);
        }
        let ghost start = self.configs@;
        let ghost last = self.tag_log.last_tag;
        let mut scope: Option<&'a str> = if same_text(output, "all") {
            None
        } else {
            Some(output)
        };
        let mut text: &'a str = cmd;
        let mut ok = true;
        let mut scope_tags = self.tag_log.last_tag;
        loop
            invariant
                self.tag_log.last_tag == last,
                last == match tags {
                    Some(t) => if is_single_tag(t) {
                        Some(t)
                    } else {
                        old(self).tag_log.last_tag
                    },
                    None => old(self).tag_log.last_tag,
                },
                start == old(self).configs@,
                run_commands(self.configs@, scope_tags, text@, opt_text(scope)) == run_commands(
                    start,
                    last,
                    cmd@,
                    scope_output(Some(output@)),
                ),
                all_recognized(start, last, cmd@, scope_output(Some(output@))) == (ok
                    && all_recognized(self.configs@, scope_tags, text@, opt_text(scope))),
            decreases text@.len(),
        {
            let (car, cdr) = split_commands(text);
            let tags = match parse_tags(car) {
                Some(t) => Some(t),
                None => scope_tags,
            };
            let out = match parse_output(car) {
                Some(o) => Some(o),
                None => scope,
            };
            let recognized = self.configs.apply_cmd(tags, out, car);
            ok = ok && recognized;
            match cdr {
                Some(rest) => {
                    if rest.unicode_len() >= text.unicode_len() {
                        return ok;
                    }
                    text = rest;
                    scope_tags = tags;
                    scope = match out {
                        Some(o) => if same_text(o, "all") {
                            None
                        } else {
                            Some(o)
                        },
                        None => None,
                    };
                },
                None => return ok,
            }
        }
    }

    /// Lays out `view_count` windows for a request on `tags` and `output`, under the
    /// configuration of the last single tag set seen on that output.
    pub fn generate_layout(
        &mut self,
        view_count: u32,
        usable_width: u32,
        usable_height: u32,
        tags: u32,
        output: &str,
    ) -> (r: Option<LayoutPlan>)
        ensures
            final(self).tag_log.last_tag == if is_single_tag(tags) {
                Some(tags)
            } else {
                old(self).tag_log.last_tag
            },
            final(self).configs@ == old(self).configs@,
            lays_out(
                resolve(old(self).configs@, final(self).tag_log.last_tag, Some(output@)),
                Params { view_count, usable_width, usable_height },
                r,
            ),
    {
        self.tag_log.record_tags(tags);
        let config = self.configs.build(self.tag_log.last_tag, Some(output));
        generate_layout(&config, view_count, usable_width, usable_height)
    }
}

} // verus!
