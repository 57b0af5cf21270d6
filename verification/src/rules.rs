//! Laws of the path rules: which glob a pattern stands for, which rule decides, and
//! which rules are refused.

use crate::config;
use crate::config::{Classification, Direction, HistoryMode, PathClass, RuleModel};
use crate::text;
use vstd::prelude::*;

verus! {

/// The glob that a pattern stands for: a pattern that ends in a slash, its own characters
/// and two stars; any other, itself.
pub open spec fn stands_for(p: Seq<char>, glob: Seq<char>) -> bool {
    if p.len() > 0 && p[p.len() - 1] == '/' {
        &&& glob.len() == p.len() + 2
        &&& forall|i: int| 0 <= i < p.len() ==> #[trigger] glob[i] == p[i]
        &&& glob[p.len() as int] == '*'
        &&& glob[p.len() as int + 1] == '*'
    } else {
        glob == p
    }
}

/// The globs that the rules stand for, one by one.
pub open spec fn all_stand_for(rules: Seq<RuleModel>, globs: Seq<Seq<char>>) -> bool {
    &&& globs.len() == rules.len()
    &&& forall|i: int| 0 <= i < rules.len() ==> stands_for(rules[i].pattern, #[trigger] globs[i])
}

proof fn the_only_glob(p: Seq<char>, glob: Seq<char>)
    requires
        stands_for(p, glob),
    ensures
        config::expanded(p) == glob,
{
    reveal_strlit("**");
    if p.len() > 0 && p[p.len() - 1] == '/' {
        assert forall|i: int| 0 <= i < glob.len() implies (p + "**"@)[i] == glob[i] by {}
        assert(config::expanded(p) =~= glob);
    }
}

proof fn the_only_globs(rules: Seq<RuleModel>, globs: Seq<Seq<char>>)
    requires
        all_stand_for(rules, globs),
    ensures
        config::matched_patterns(rules) == globs,
{
    assert forall|i: int| 0 <= i < rules.len() implies config::matched_patterns(rules)[i]
        == globs[i] by {
        the_only_glob(rules[i].pattern, globs[i]);
    }
    assert(config::matched_patterns(rules) =~= globs);
}

/// Law: a rule that is written last decides on the paths that its glob matches, and on no
/// others. A pattern that ends in a slash is matched as exactly its own characters and two
/// stars, and any other as itself.
pub proof fn a_rule_is_matched_as_written(
    rules: Seq<RuleModel>,
    rule: RuleModel,
    glob: Seq<char>,
    path: Seq<char>,
)
    requires
        stands_for(rule.pattern, glob),
        !config::internal(path),
    ensures
        config::classification(rules.push(rule), path) == if config::glob_matches(glob, path) {
            Classification { class: rule.class, direction: rule.direction }
        } else {
            config::classification(rules, path)
        },
{
    the_only_glob(rule.pattern, glob);
    assert(rules.push(rule).drop_last() =~= rules);
}

/// Law: a pattern that ends in a slash does what the same pattern with two stars behind
/// it does, wherever the rule stands.
pub proof fn a_trailing_slash_means_everything_below(
    before: Seq<RuleModel>,
    rule: RuleModel,
    after: Seq<RuleModel>,
    path: Seq<char>,
)
    requires
        rule.pattern.len() > 0,
        rule.pattern.last() == '/',
    ensures
        ({
            let starred = RuleModel { pattern: rule.pattern + "**"@, ..rule };
            let written = before + seq![rule] + after;
            let spelled = before + seq![starred] + after;
            &&& config::classification(written, path) == config::classification(spelled, path)
            &&& config::matched_patterns(written) == config::matched_patterns(spelled)
        }),
{
    reveal_strlit("**");
    let starred = RuleModel { pattern: rule.pattern + "**"@, ..rule };
    let written = before + seq![rule] + after;
    let spelled = before + seq![starred] + after;
    let a = config::matched_patterns(written);
    let b = config::matched_patterns(spelled);
    assert forall|i: int| 0 <= i < a.len() implies a[i] == b[i] by {
        if i == before.len() {
            assert(written[i] == rule && spelled[i] == starred);
            the_only_glob(rule.pattern, starred.pattern);
            the_only_glob(starred.pattern, starred.pattern);
        } else {
            assert(written[i] == spelled[i]);
        }
    }
    assert(a =~= b);
    assert forall|i: int| 0 <= i < written.len() implies (#[trigger] written[i]).class
        == spelled[i].class && written[i].direction == spelled[i].direction by {
        if i == before.len() {
            assert(written[i] == rule && spelled[i] == starred);
        } else {
            assert(written[i] == spelled[i]);
        }
    }
    alike_rules(written, spelled, path);
}

proof fn alike_rules(a: Seq<RuleModel>, b: Seq<RuleModel>, path: Seq<char>)
    requires
        config::matched_patterns(a) == config::matched_patterns(b),
        forall|i: int|
            0 <= i < a.len() ==> (#[trigger] a[i]).class == b[i].class && a[i].direction
                == b[i].direction,
    ensures
        config::classification(a, path) == config::classification(b, path),
    decreases a.len(),
{
    assert(config::matched_patterns(a).len() == a.len());
    assert(config::matched_patterns(b).len() == b.len());
    if a.len() > 0 {
        let k = a.len() - 1;
        assert(config::matched_patterns(a)[k] == config::matched_patterns(b)[k]);
        assert(a[k].class == b[k].class);
        let c = a.drop_last();
        let d = b.drop_last();
        assert forall|i: int| 0 <= i < c.len() implies config::matched_patterns(c)[i]
            == config::matched_patterns(d)[i] by {
            assert(config::matched_patterns(a)[i] == config::matched_patterns(b)[i]);
            assert(c[i] == a[i] && d[i] == b[i]);
        }
        assert(config::matched_patterns(c) =~= config::matched_patterns(d));
        assert forall|i: int| 0 <= i < c.len() implies (#[trigger] c[i]).class == d[i].class
            && c[i].direction == d[i].direction by {
            assert(c[i] == a[i] && d[i] == b[i]);
        }
        alike_rules(c, d, path);
    }
}

/// Law: of the rules whose globs match a path, the last decides; where none does, the
/// path is synced and versioned in both directions. The state directory is ignored in
/// any case.
pub proof fn the_last_matching_rule_decides(
    rules: Seq<RuleModel>,
    globs: Seq<Seq<char>>,
    path: Seq<char>,
    k: int,
)
    requires
        all_stand_for(rules, globs),
        -1 <= k < rules.len(),
        k >= 0 ==> config::glob_matches(globs[k], path),
        forall|i: int| k < i < rules.len() ==> !config::glob_matches(#[trigger] globs[i], path),
    ensures
        config::classification(rules, path) == if config::internal(path) {
            Classification { class: PathClass::Ignored, direction: Direction::Both }
        } else if k >= 0 {
            Classification { class: rules[k].class, direction: rules[k].direction }
        } else {
            Classification { class: PathClass::SyncedVersioned, direction: Direction::Both }
        },
    decreases rules.len(),
{
    if rules.len() > 0 {
        let last = rules.len() - 1;
        the_only_glob(rules[last].pattern, globs[last]);
        if k < last {
            let fewer = rules.drop_last();
            assert forall|i: int| 0 <= i < fewer.len() implies stands_for(
                fewer[i].pattern,
                #[trigger] globs.drop_last()[i],
            ) by {
                assert(globs.drop_last()[i] == globs[i]);
            }
            assert(!config::glob_matches(globs[last], path));
            assert forall|i: int| k < i < fewer.len() implies !config::glob_matches(
                #[trigger] globs.drop_last()[i],
                path,
            ) by {
                assert(globs.drop_last()[i] == globs[i]);
            }
            the_last_matching_rule_decides(fewer, globs.drop_last(), path, k);
        }
    }
}

/// Law: rules are refused for the first pattern whose glob is malformed, and the pattern
/// is reported as it was written.
pub proof fn the_first_malformed_pattern_is_reported(
    rules: Seq<RuleModel>,
    globs: Seq<Seq<char>>,
    k: int,
)
    requires
        all_stand_for(rules, globs),
        0 <= k < rules.len(),
        config::glob_error(globs[k]) is Some,
        forall|i: int| 0 <= i < k ==> config::glob_error(#[trigger] globs[i]) is None,
    ensures
        config::rules_fault(rules) == Some(
            (rules[k].pattern, config::glob_error(globs[k])->Some_0),
        ),
{
    first_fault(rules, globs, k);
}

proof fn first_fault(rules: Seq<RuleModel>, globs: Seq<Seq<char>>, k: int)
    requires
        all_stand_for(rules, globs),
        0 <= k <= rules.len(),
        k < rules.len() ==> config::glob_error(globs[k]) is Some,
        forall|i: int| 0 <= i < k ==> config::glob_error(#[trigger] globs[i]) is None,
    ensures
        config::bad_pattern(rules) == if k < rules.len() {
            Some((rules[k].pattern, config::glob_error(globs[k])->Some_0))
        } else {
            None
        },
    decreases rules.len(),
{
    if rules.len() > 0 {
        let last = rules.len() - 1;
        the_only_glob(rules[last].pattern, globs[last]);
        let fewer = rules.drop_last();
        assert forall|i: int| 0 <= i < fewer.len() implies stands_for(
            fewer[i].pattern,
            #[trigger] globs.drop_last()[i],
        ) by {
            assert(globs.drop_last()[i] == globs[i]);
        }
        let at = if k < last {
            k
        } else {
            last
        };
        assert forall|i: int| 0 <= i < at implies config::glob_error(
            #[trigger] globs.drop_last()[i],
        ) is None by {
            assert(globs.drop_last()[i] == globs[i]);
        }
        first_fault(fewer, globs.drop_last(), at);
    }
}

/// Law: rules whose globs are all well formed are refused only where no matcher can be
/// built of the globs, and then for no pattern alone.
pub proof fn well_formed_rules_are_accepted(rules: Seq<RuleModel>, globs: Seq<Seq<char>>)
    requires
        all_stand_for(rules, globs),
        forall|i: int| 0 <= i < rules.len() ==> config::glob_error(#[trigger] globs[i]) is None,
    ensures
        config::rules_fault(rules) == match config::set_error(globs) {
            Some(e) => Some((Seq::<char>::empty(), e)),
            None => None,
        },
{
    first_fault(rules, globs, rules.len() as int);
    the_only_globs(rules, globs);
}

// ---- the built-in rules ----------------------------------------------------
/// Law: every built-in rule ignores, in both directions.
pub proof fn built_in_rules_ignore(k: int)
    requires
        0 <= k < config::default_rules().len(),
    ensures
        config::default_rules()[k].class == PathClass::Ignored,
        config::default_rules()[k].direction == Direction::Both,
{
}

/// Law: the built-in rules come first and the user's after them, in the order in which
/// they are written.
pub proof fn user_rules_come_last(rules: Seq<RuleModel>, i: int)
    requires
        0 <= i < rules.len(),
    ensures
        ({
            let on = config::rules_in_force(true, rules);
            let off = config::rules_in_force(false, rules);
            &&& on.len() == config::default_rules().len() + rules.len()
            &&& on[config::default_rules().len() + i] == rules[i]
            &&& on.take(config::default_rules().len() as int) == config::default_rules()
            &&& off.len() == rules.len()
            &&& off[i] == rules[i]
        }),
{
    let on = config::rules_in_force(true, rules);
    assert(on.take(config::default_rules().len() as int) =~= config::default_rules());
}

// ---- modes -----------------------------------------------------------------
/// Law: three modes have names, one each, and no other name is one.
pub proof fn each_mode_has_its_name(name: Seq<char>)
    ensures
        config::mode_named(name) == Some(HistoryMode::Adaptive) <==> name == "adaptive"@,
        config::mode_named(name) == Some(HistoryMode::EveryChange) <==> name == "every-change"@,
        config::mode_named(name) == Some(HistoryMode::Off) <==> name == "off"@,
        config::mode_named(name) is None <==> name != "adaptive"@ && name != "every-change"@ && name
            != "off"@,
{
    reveal_strlit("adaptive");
    reveal_strlit("every-change");
    reveal_strlit("off");
    assert("adaptive"@.len() == 8 && "every-change"@.len() == 12 && "off"@.len() == 3);
}

// ---- the state directory ---------------------------------------------------
/// Law: a path is internal if and only if `.tomo` is its first component.
pub proof fn internal_paths_are_below_the_state_directory(p: Seq<char>)
    ensures
        config::internal(p) <==> text::split(p, '/')[0] == seq!['.', 't', 'o', 'm', 'o'],
{
    reveal_strlit(".tomo");
    let dir = seq!['.', 't', 'o', 'm', 'o'];
    assert(config::TOMO_DIR@ =~= dir);
    let first = text::split(p, '/')[0];
    if config::internal(p) {
        if p == dir {
            text::find_absent(p, '/', 0);
            assert(first =~= p.skip(0));
            assert(p.skip(0) =~= p);
        } else {
            assert forall|j: int| 0 <= j < 5 implies p[j] != '/' by {
                assert(p.take(5)[j] == dir[j]);
            }
            text::find_at(p, '/', 0, 5);
            assert(first =~= p.subrange(0, 5));
            assert(p.subrange(0, 5) =~= p.take(5));
        }
    }
    if first == dir {
        text::find_spec(p, '/', 0);
        let e = text::find(p, '/', 0);
        assert(first =~= p.subrange(0, e as int));
        assert(first.len() == 5);
        if e < p.len() {
            assert(p.take(5) =~= first);
        } else {
            assert(p =~= first);
        }
    }
}

} // verus!
