use crate::input_event::SimpleKey;
use crate::keys::{
    ActivateLayerKey, HoldEnableLayerPressKey, KeyCode, MacroKey, MomentarilyEnableLayerKey,
    NormalKey, OneShotLayer, OpaqueKey, SpaceCadet, ToggleLayerKey, TransparentKey, WrappedKey,
};
use crate::parser::{KeyTree, ParsedKeyTree};
use crate::symbols::KeySymbols;
use crate::text::{
    after_first, all_chars, count_and_find, is_all, lemma_first_occurrence, occurrences,
    parse_u64, same_text, to_uppercase, u64_of, uppercase,
};
use crate::time::{Duration, Instant};
use crate::virtual_keyboard_matrix::KeyStateChange;
use vstd::prelude::*;
use vstd::string::*;

verus! {

/// A key as it is made, as a mathematical value.
pub enum KeyShape {
    Transparent,
    Opaque,
    Normal(SimpleKey),
    Macro(KeyStateChange, Seq<SimpleKey>),
    ToggleLayer(Seq<char>),
    MomentarilyEnableLayer(Seq<char>),
    ActivateLayer(Seq<char>),
    HoldEnableLayerPress(Seq<char>, SimpleKey, Instant, Duration),
    OneShotLayer(Seq<char>),
    Wrapped(Box<KeyShape>, SimpleKey),
    SpaceCadet(Box<KeyShape>, SimpleKey, u32),
}

/// The keys of a macro as mathematical values.
pub open spec fn macro_values(keys: Seq<NormalKey>) -> Seq<SimpleKey> {
    keys.map_values(|k: NormalKey| k.value)
}

impl KeyCode {
    /// The key as a mathematical value.
    pub open spec fn shape(self) -> KeyShape
        decreases self,
    {
        match self {
            KeyCode::Transparent(_) => KeyShape::Transparent,
            KeyCode::Opaque(_) => KeyShape::Opaque,
            KeyCode::Normal(k) => KeyShape::Normal(k.value),
            KeyCode::Macro(k) => KeyShape::Macro(k.play_macro_when, macro_values(k.keys@)),
            KeyCode::ToggleLayer(k) => KeyShape::ToggleLayer(k.layer_name@),
            KeyCode::MomentarilyEnableLayer(k) => KeyShape::MomentarilyEnableLayer(k.layer_name@),
            KeyCode::ActivateLayer(k) => KeyShape::ActivateLayer(k.layer_name@),
            KeyCode::HoldEnableLayerPress(k) => KeyShape::HoldEnableLayerPress(
                k.layer_name@,
                k.key.value,
                k.pressed_at,
                k.hold_threshold,
            ),
            KeyCode::OneShotLayer(k) => KeyShape::OneShotLayer(k.layer_name@),
            KeyCode::Wrapped(k) => KeyShape::Wrapped(Box::new(k.inside.shape()), k.outside.value),
            KeyCode::SpaceCadet(k) => KeyShape::SpaceCadet(
                Box::new(k.when_tapped.shape()),
                k.when_held.value,
                k.number_of_keys_pressed,
            ),
        }
    }
}

/// Why `tree` describes no transparent key, if it does not: a transparent
/// key has no arguments, and is written as `KC_TRANS` or in underscores only.
pub open spec fn transparent_fault(tree: KeyTree) -> Option<Seq<char>> {
    if tree.args.len() > 0 {
        Some("Transparent keys don't have arguments"@)
    } else if all_chars(tree.identifier, '_') || tree.identifier == "KC_TRANS"@ {
        None
    } else {
        Some("Not a transparent key."@)
    }
}

/// Why `tree` describes no opaque key, if it does not: an opaque key has no
/// arguments, and is written as `KC_OPAQUE` or in the letter `X` only.
pub open spec fn opaque_fault(tree: KeyTree) -> Option<Seq<char>> {
    if tree.args.len() > 0 {
        Some("Opaque keys don't have arguments"@)
    } else if all_chars(tree.identifier, 'X') || tree.identifier == "KC_OPAQUE"@ {
        None
    } else {
        Some("Not an opaque key."@)
    }
}

/// The name of the hardware key that `identifier` stands for: `KEY_` and
/// what follows the underscore, in upper case. So `KC_Q` stands for `KEY_Q`.
pub open spec fn symbol_name(identifier: Seq<char>) -> Seq<char> {
    uppercase("KEY_"@ + after_first(identifier, '_'))
}

/// The key called `name`, or why there is none.
pub open spec fn symbol_of(name: Seq<char>, symbols: Map<Seq<char>, u16>) -> Result<
    SimpleKey,
    Seq<char>,
> {
    if symbols.contains_key(name) {
        Ok(SimpleKey { code: symbols[name] })
    } else {
        Err("Couldn't convert \""@ + name + "\" to an evdev key."@)
    }
}

/// The hardware key that `tree` describes, or why it describes none: a
/// name with one underscore and without arguments, which stands for a key
/// that `symbols` knows.
pub open spec fn normal_of(tree: KeyTree, symbols: Map<Seq<char>, u16>) -> Result<
    SimpleKey,
    Seq<char>,
> {
    let underscores = occurrences(tree.identifier, '_', tree.identifier.len());
    if tree.args.len() > 0 {
        Err("Simple keys don't have arguments"@)
    } else if underscores == 0 {
        Err("Missing an \"_\" character."@)
    } else if underscores > 1 {
        Err("Too many \"_\" characters."@)
    } else {
        symbol_of(symbol_name(tree.identifier), symbols)
    }
}

/// The keys that the first `n` of `args` describe, or why the first of
/// them that describes none does not.
pub open spec fn macro_keys(args: Seq<KeyTree>, n: nat, symbols: Map<Seq<char>, u16>) -> Result<
    Seq<SimpleKey>,
    Seq<char>,
>
    decreases n,
{
    if n == 0 {
        Ok(Seq::empty())
    } else {
        match macro_keys(args, (n - 1) as nat, symbols) {
            Err(fault) => Err(fault),
            Ok(keys) => match normal_of(args[n - 1], symbols) {
                Err(fault) => Err(fault),
                Ok(key) => Ok(keys.push(key)),
            },
        }
    }
}

/// The keys of the macro that `tree` describes, or why it describes none:
/// a macro is called `MACRO`, and each of its arguments is a hardware key.
pub open spec fn macro_of(tree: KeyTree, symbols: Map<Seq<char>, u16>) -> Result<
    Seq<SimpleKey>,
    Seq<char>,
> {
    if tree.identifier != "MACRO"@ {
        Err("Wrong identifier."@)
    } else {
        macro_keys(tree.args, tree.args.len(), symbols)
    }
}

/// The layer that the arguments of `tree` name, or why they name none:
/// the first argument is the name, has no arguments of its own, and at
/// most one argument follows it.
pub open spec fn layer_arg_of(tree: KeyTree) -> Result<Seq<char>, Seq<char>> {
    if tree.args.len() == 0 {
        Err("Missing layer name."@)
    } else if tree.args.len() > 2 {
        Err("Too many arguments."@)
    } else if tree.args[0].args.len() > 0 {
        Err("Layer name doesn't have arguments"@)
    } else {
        Ok(tree.args[0].identifier)
    }
}

/// The layer of the key called `name` that `tree` describes, or why it
/// describes none.
pub open spec fn layer_key_of(tree: KeyTree, name: Seq<char>) -> Result<Seq<char>, Seq<char>> {
    if tree.identifier != name {
        Err("Wrong identifier."@)
    } else {
        layer_arg_of(tree)
    }
}

/// The layer, the key and the threshold of the key that `tree` describes,
/// or why it describes none: the key is called `LT`, and its three
/// arguments are a layer, a hardware key, and a number of milliseconds.
pub open spec fn hold_of(tree: KeyTree, symbols: Map<Seq<char>, u16>) -> Result<
    (Seq<char>, SimpleKey, Duration),
    Seq<char>,
> {
    if tree.identifier != "LT"@ {
        Err("Wrong identifier."@)
    } else if tree.args.len() != 3 {
        Err("Wrong number of arguments."@)
    } else {
        match normal_of(tree.args[1], symbols) {
            Err(fault) => Err(fault),
            Ok(key) => match u64_of(tree.args[2].identifier) {
                None => Err("Couldn't convert duration to milliseconds"@),
                Some(millis) => Ok(
                    (
                        tree.args[0].identifier,
                        key,
                        Duration { nanos: (millis * 1_000_000) as u128 },
                    ),
                ),
            },
        }
    }
}

/// The outer key and the key inside of the wrapped key that `tree`
/// describes, or why it describes none: the key is called `WRAP`, its
/// first argument is a hardware key and its second a key of any kind.
pub open spec fn wrapped_of(tree: KeyTree, symbols: Map<Seq<char>, u16>) -> Result<
    (SimpleKey, KeyShape),
    Seq<char>,
>
    decreases tree, 0int,
{
    if tree.identifier != "WRAP"@ {
        Err("Wrong identifier."@)
    } else if tree.args.len() != 2 {
        Err("Wrong number of arguments."@)
    } else {
        match normal_of(tree.args[0], symbols) {
            Err(fault) => Err(fault),
            Ok(outside) => match shape_of(tree.args[1], symbols) {
                Err(fault) => Err(fault),
                Ok(inside) => Ok((outside, inside)),
            },
        }
    }
}

/// The key for taps and the modifier of the space cadet key that `tree`
/// describes, or why it describes none: the key is called `SPACECADET`,
/// its first argument is a key of any kind and its second a hardware key.
pub open spec fn space_cadet_of(tree: KeyTree, symbols: Map<Seq<char>, u16>) -> Result<
    (KeyShape, SimpleKey),
    Seq<char>,
>
    decreases tree, 0int,
{
    if tree.identifier != "SPACECADET"@ {
        Err("Wrong identifier."@)
    } else if tree.args.len() != 2 {
        Err("Wrong number of arguments."@)
    } else {
        match shape_of(tree.args[0], symbols) {
            Err(fault) => Err(fault),
            Ok(tap) => match normal_of(tree.args[1], symbols) {
                Err(fault) => Err(fault),
                Ok(modifier) => Ok((tap, modifier)),
            },
        }
    }
}

/// The key that `tree` describes, or that it describes none. The kinds
/// of key are tried in a fixed order, and the first that `tree` describes
/// counts: hardware key, transparent, opaque, macro, `TG`, `MO`, `AL`, `LT`,
/// `OSL`, `WRAP`, `SPACECADET`. A macro plays when it is pressed; a key made
/// from text has not been pressed and has seen no presses.
pub open spec fn shape_of(tree: KeyTree, symbols: Map<Seq<char>, u16>) -> Result<
    KeyShape,
    Seq<char>,
>
    decreases tree, 1int,
{
    if normal_of(tree, symbols) is Ok {
        Ok(KeyShape::Normal(normal_of(tree, symbols)->Ok_0))
    } else if transparent_fault(tree) is None {
        Ok(KeyShape::Transparent)
    } else if opaque_fault(tree) is None {
        Ok(KeyShape::Opaque)
    } else if macro_of(tree, symbols) is Ok {
        Ok(KeyShape::Macro(KeyStateChange::Pressed, macro_of(tree, symbols)->Ok_0))
    } else if layer_key_of(tree, "TG"@) is Ok {
        Ok(KeyShape::ToggleLayer(layer_key_of(tree, "TG"@)->Ok_0))
    } else if layer_key_of(tree, "MO"@) is Ok {
        Ok(KeyShape::MomentarilyEnableLayer(layer_key_of(tree, "MO"@)->Ok_0))
    } else if layer_key_of(tree, "AL"@) is Ok {
        Ok(KeyShape::ActivateLayer(layer_key_of(tree, "AL"@)->Ok_0))
    } else if hold_of(tree, symbols) is Ok {
        Ok(
            KeyShape::HoldEnableLayerPress(
                hold_of(tree, symbols)->Ok_0.0,
                hold_of(tree, symbols)->Ok_0.1,
                Instant { nanos: 0 },
                hold_of(tree, symbols)->Ok_0.2,
            ),
        )
    } else if layer_key_of(tree, "OSL"@) is Ok {
        Ok(KeyShape::OneShotLayer(layer_key_of(tree, "OSL"@)->Ok_0))
    } else if wrapped_of(tree, symbols) is Ok {
        Ok(
            KeyShape::Wrapped(
                Box::new(wrapped_of(tree, symbols)->Ok_0.1),
                wrapped_of(tree, symbols)->Ok_0.0,
            ),
        )
    } else if space_cadet_of(tree, symbols) is Ok {
        Ok(
            KeyShape::SpaceCadet(
                Box::new(space_cadet_of(tree, symbols)->Ok_0.0),
                space_cadet_of(tree, symbols)->Ok_0.1,
                0,
            ),
        )
    } else {
        Err("Failed to convert key tree into a key."@)
    }
}

impl TransparentKey {
    /// Make the key that `item` describes, or say why it describes none.
    pub fn from_tokens(item: &ParsedKeyTree) -> (r: Result<TransparentKey, String>)
        ensures
            match r {
                Ok(_) => transparent_fault(item@) is None,
                Err(message) => transparent_fault(item@) == Some(message@),
            },
    {
        if item.args.len() > 0 {
            Err(String::from_str("Transparent keys don't have arguments"))
        } else if is_all(item.identifier, '_') {
            Ok(TransparentKey {  })
        } else if same_text(item.identifier, "KC_TRANS") {
            Ok(TransparentKey {  })
        } else {
            Err(String::from_str("Not a transparent key."))
        }
    }
}

impl OpaqueKey {
    /// Make the key that `item` describes, or say why it describes none.
    pub fn from_tokens(item: &ParsedKeyTree) -> (r: Result<OpaqueKey, String>)
        ensures
            match r {
                Ok(_) => opaque_fault(item@) is None,
                Err(message) => opaque_fault(item@) == Some(message@),
            },
    {
        if item.args.len() > 0 {
            Err(String::from_str("Opaque keys don't have arguments"))
        } else if is_all(item.identifier, 'X') {
            Ok(OpaqueKey {  })
        } else if same_text(item.identifier, "KC_OPAQUE") {
            Ok(OpaqueKey {  })
        } else {
            Err(String::from_str("Not an opaque key."))
        }
    }
}

impl NormalKey {
    /// The key that `symbols` knows as `name`.
    pub fn from_symbol(name: &str, symbols: &KeySymbols) -> (r: Result<NormalKey, String>)
        ensures
            match r {
                Ok(key) => symbol_of(name@, symbols@) == Ok::<SimpleKey, Seq<char>>(key.value),
                Err(message) => symbol_of(name@, symbols@) == Err::<SimpleKey, Seq<char>>(
                    message@,
                ),
            },
    {
        match symbols.lookup(name) {
            Some(k) => Ok(NormalKey { value: k }),
            None => {
                let mut message = String::from_str("Couldn't convert \"");
                message.append(name);
                message.append("\" to an evdev key.");
                Err(message)
            },
        }
    }

    /// Make the key that `item` describes, or say why it describes none.
    pub fn from_tokens(item: &ParsedKeyTree, symbols: &KeySymbols) -> (r: Result<
        NormalKey,
        String,
    >)
        ensures
            match r {
                Ok(key) => normal_of(item@, symbols@) == Ok::<SimpleKey, Seq<char>>(key.value),
                Err(message) => normal_of(item@, symbols@) == Err::<SimpleKey, Seq<char>>(
                    message@,
                ),
            },
    {
        if item.args.len() > 0 {
            Err(String::from_str("Simple keys don't have arguments"))
        } else {
            // Transform KC_Q into KEY_Q.
            let (underscores, first) = count_and_find(item.identifier, '_');
            if underscores == 0 {
                Err(String::from_str("Missing an \"_\" character."))
            } else if underscores > 1 {
                Err(String::from_str("Too many \"_\" characters."))
            } else {
                proof {
                    lemma_first_occurrence(
                        item.identifier@,
                        '_',
                        item.identifier@.len(),
                    );
                }
                let len = item.identifier.unicode_len();
                let suffix = item.identifier.substring_char(first + 1, len);
                let mut name = String::from_str("KEY_");
                name.append(suffix);
                let trial = to_uppercase(name.as_str());
                NormalKey::from_symbol(trial.as_str(), symbols)
            }
        }
    }
}

impl MacroKey {
    /// Make the key that `item` describes, or say why it describes none.
    pub fn from_tokens(item: &ParsedKeyTree, symbols: &KeySymbols) -> (r: Result<MacroKey, String>)
        ensures
            match r {
                Ok(key) => macro_of(item@, symbols@) == Ok::<Seq<SimpleKey>, Seq<char>>(
                    macro_values(key.keys@),
                ) && key.play_macro_when == KeyStateChange::Pressed,
                Err(message) => macro_of(item@, symbols@) == Err::<Seq<SimpleKey>, Seq<char>>(
                    message@,
                ),
            },
    {
        if !same_text(item.identifier, "MACRO") {
            Err(String::from_str("Wrong identifier."))
        } else {
            let mut ans = MacroKey { play_macro_when: KeyStateChange::Pressed, keys: Vec::new() };
            let mut i: usize = 0;
            assert(macro_values(ans.keys@) =~= Seq::<SimpleKey>::empty());
            while i < item.args.len()
                invariant
                    i <= item.args@.len(),
                    item@.args.len() == item.args@.len(),
                    item@.identifier == "MACRO"@,
                    ans.play_macro_when == KeyStateChange::Pressed,
                    macro_keys(item@.args, i as nat, symbols@) == Ok::<Seq<SimpleKey>, Seq<char>>(
                        macro_values(ans.keys@),
                    ),
                decreases item.args@.len() - i,
            {
                assert(item@.args[i as int] == item.args@[i as int]@);
                match NormalKey::from_tokens(&item.args[i], symbols) {
                    Err(e) => {
                        proof {
                            assert(normal_of(item@.args[i as int], symbols@) == Err::<
                                SimpleKey,
                                Seq<char>,
                            >(e@));
                            assert(macro_keys(item@.args, (i + 1) as nat, symbols@) == Err::<
                                Seq<SimpleKey>,
                                Seq<char>,
                            >(e@));
                            lemma_macro_keys_fail(
                                item@.args,
                                (i + 1) as nat,
                                item@.args.len(),
                                symbols@,
                            );
                        }
                        return Err(e);
                    },
                    Ok(converted) => {
                        assert(macro_values(ans.keys@.push(converted)) =~= macro_values(
                            ans.keys@,
                        ).push(converted.value));
                        ans.keys.push(converted);
                    },
                }
                i += 1;
            }
            Ok(ans)
        }
    }
}

/// Where the first `n` arguments do not all describe keys, neither do
/// the first `m`, for every larger `m`, and for the same reason.
pub proof fn lemma_macro_keys_fail(
    args: Seq<KeyTree>,
    n: nat,
    m: nat,
    symbols: Map<Seq<char>, u16>,
)
    requires
        n <= m,
        macro_keys(args, n, symbols) is Err,
    ensures
        macro_keys(args, m, symbols) == macro_keys(args, n, symbols),
    decreases m,
{
    if n < m {
        lemma_macro_keys_fail(args, n, (m - 1) as nat, symbols);
    }
}

/// Shorthand for keys whose only argument is a layer name.
pub fn expecting_just_layer_arg(item: &ParsedKeyTree) -> (r: Result<String, String>)
    ensures
        match r {
            Ok(name) => layer_arg_of(item@) == Ok::<Seq<char>, Seq<char>>(name@),
            Err(message) => layer_arg_of(item@) == Err::<Seq<char>, Seq<char>>(message@),
        },
{
    if item.args.len() == 0 {
        Err(String::from_str("Missing layer name."))
    } else if item.args.len() > 2 {
        Err(String::from_str("Too many arguments."))
    } else {
        assert(item@.args[0] == item.args@[0]@);
        if item.args[0].args.len() > 0 {
            Err(String::from_str("Layer name doesn't have arguments"))
        } else {
            Ok(String::from_str(item.args[0].identifier))
        }
    }
}

/// The name of the layer of the key called `name` that `item` describes.
fn layer_key(item: &ParsedKeyTree, name: &str) -> (r: Result<String, String>)
    ensures
        match r {
            Ok(layer) => layer_key_of(item@, name@) == Ok::<Seq<char>, Seq<char>>(layer@),
            Err(message) => layer_key_of(item@, name@) == Err::<Seq<char>, Seq<char>>(message@),
        },
{
    if !same_text(item.identifier, name) {
        Err(String::from_str("Wrong identifier."))
    } else {
        expecting_just_layer_arg(item)
    }
}

impl ToggleLayerKey {
    /// Make the key that `item` describes, or say why it describes none.
    pub fn from_tokens(item: &ParsedKeyTree) -> (r: Result<ToggleLayerKey, String>)
        ensures
            match r {
                Ok(key) => layer_key_of(item@, "TG"@) == Ok::<Seq<char>, Seq<char>>(
                    key.layer_name@,
                ),
                Err(message) => layer_key_of(item@, "TG"@) == Err::<Seq<char>, Seq<char>>(
                    message@,
                ),
            },
    {
        match layer_key(item, "TG") {
            Ok(layer_name) => Ok(ToggleLayerKey { layer_name }),
            Err(e) => Err(e),
        }
    }
}

impl MomentarilyEnableLayerKey {
    /// Make the key that `item` describes, or say why it describes none.
    pub fn from_tokens(item: &ParsedKeyTree) -> (r: Result<MomentarilyEnableLayerKey, String>)
        ensures
            match r {
                Ok(key) => layer_key_of(item@, "MO"@) == Ok::<Seq<char>, Seq<char>>(
                    key.layer_name@,
                ),
                Err(message) => layer_key_of(item@, "MO"@) == Err::<Seq<char>, Seq<char>>(
                    message@,
                ),
            },
    {
        match layer_key(item, "MO") {
            Ok(layer_name) => Ok(MomentarilyEnableLayerKey { layer_name }),
            Err(e) => Err(e),
        }
    }
}

impl ActivateLayerKey {
    /// Make the key that `item` describes, or say why it describes none.
    pub fn from_tokens(item: &ParsedKeyTree) -> (r: Result<ActivateLayerKey, String>)
        ensures
            match r {
                Ok(key) => layer_key_of(item@, "AL"@) == Ok::<Seq<char>, Seq<char>>(
                    key.layer_name@,
                ),
                Err(message) => layer_key_of(item@, "AL"@) == Err::<Seq<char>, Seq<char>>(
                    message@,
                ),
            },
    {
        match layer_key(item, "AL") {
            Ok(layer_name) => Ok(ActivateLayerKey { layer_name }),
            Err(e) => Err(e),
        }
    }
}

impl OneShotLayer {
    /// Make the key that `item` describes, or say why it describes none.
    pub fn from_tokens(item: &ParsedKeyTree) -> (r: Result<OneShotLayer, String>)
        ensures
            match r {
                Ok(key) => layer_key_of(item@, "OSL"@) == Ok::<Seq<char>, Seq<char>>(
                    key.layer_name@,
                ),
                Err(message) => layer_key_of(item@, "OSL"@) == Err::<Seq<char>, Seq<char>>(
                    message@,
                ),
            },
    {
        match layer_key(item, "OSL") {
            Ok(layer_name) => Ok(OneShotLayer { layer_name }),
            Err(e) => Err(e),
        }
    }
}

impl HoldEnableLayerPressKey {
    /// Make the key that `item` describes, or say why it describes none.
    pub fn from_tokens(item: &ParsedKeyTree, symbols: &KeySymbols) -> (r: Result<
        HoldEnableLayerPressKey,
        String,
    >)
        ensures
            match r {
                Ok(key) => hold_of(item@, symbols@) == Ok::<
                    (Seq<char>, SimpleKey, Duration),
                    Seq<char>,
                >((key.layer_name@, key.key.value, key.hold_threshold)) && key.pressed_at == (
                Instant { nanos: 0 }),
                Err(message) => hold_of(item@, symbols@) == Err::<
                    (Seq<char>, SimpleKey, Duration),
                    Seq<char>,
                >(message@),
            },
    {
        if !same_text(item.identifier, "LT") {
            Err(String::from_str("Wrong identifier."))
        } else if item.args.len() != 3 {
            Err(String::from_str("Wrong number of arguments."))
        } else {
            assert(item@.args[0] == item.args@[0]@);
            assert(item@.args[1] == item.args@[1]@);
            assert(item@.args[2] == item.args@[2]@);
            // Get a layer name.
            let layer_name = item.args[0].identifier;
            let key = match NormalKey::from_tokens(&item.args[1], symbols) {
                Ok(key) => key,
                Err(e) => {
                    return Err(e);
                },
            };
            let duration_ms = match parse_u64(item.args[2].identifier) {
                Some(v) => v,
                None => {
                    return Err(String::from_str("Couldn't convert duration to milliseconds"));
                },
            };
            Ok(HoldEnableLayerPressKey::new(layer_name, key, Duration::from_millis(duration_ms)))
        }
    }
}

impl WrappedKey {
    /// Make the key that `item` describes, or say why it describes none.
    pub fn from_tokens(item: &ParsedKeyTree, symbols: &KeySymbols) -> (r: Result<
        WrappedKey,
        String,
    >)
        ensures
            match r {
                Ok(key) => wrapped_of(item@, symbols@) == Ok::<(SimpleKey, KeyShape), Seq<char>>(
                    (key.outside.value, key.inside.shape()),
                ),
                Err(message) => wrapped_of(item@, symbols@) == Err::<
                    (SimpleKey, KeyShape),
                    Seq<char>,
                >(message@),
            },
        decreases item, 0int,
    {
        if !same_text(item.identifier, "WRAP") {
            Err(String::from_str("Wrong identifier."))
        } else if item.args.len() != 2 {
            Err(String::from_str("Wrong number of arguments."))
        } else {
            assert(item@.args[0] == item.args@[0]@);
            assert(item@.args[1] == item.args@[1]@);
            let outside = match NormalKey::from_tokens(&item.args[0], symbols) {
                Ok(key) => key,
                Err(e) => {
                    return Err(e);
                },
            };
            let inside = match convert_tokens_to_key(&item.args[1], symbols) {
                Ok(key) => key,
                Err(e) => {
                    return Err(e);
                },
            };
            Ok(WrappedKey { outside, inside })
        }
    }
}

impl SpaceCadet {
    /// Make the key that `item` describes, or say why it describes none.
    pub fn from_tokens(item: &ParsedKeyTree, symbols: &KeySymbols) -> (r: Result<
        SpaceCadet,
        String,
    >)
        ensures
            match r {
                Ok(key) => space_cadet_of(item@, symbols@) == Ok::<
                    (KeyShape, SimpleKey),
                    Seq<char>,
                >((key.when_tapped.shape(), key.when_held.value)) && key.number_of_keys_pressed
                    == 0,
                Err(message) => space_cadet_of(item@, symbols@) == Err::<
                    (KeyShape, SimpleKey),
                    Seq<char>,
                >(message@),
            },
        decreases item, 0int,
    {
        if !same_text(item.identifier, "SPACECADET") {
            Err(String::from_str("Wrong identifier."))
        } else if item.args.len() != 2 {
            Err(String::from_str("Wrong number of arguments."))
        } else {
            assert(item@.args[0] == item.args@[0]@);
            assert(item@.args[1] == item.args@[1]@);
            let tap = match convert_tokens_to_key(&item.args[0], symbols) {
                Ok(key) => key,
                Err(e) => {
                    return Err(e);
                },
            };
            let modifier = match NormalKey::from_tokens(&item.args[1], symbols) {
                Ok(key) => key,
                Err(e) => {
                    return Err(e);
                },
            };
            Ok(SpaceCadet::new(tap, modifier))
        }
    }
}

/// Try to parse the key tree using every known key.
pub fn convert_tokens_to_key(v: &ParsedKeyTree, symbols: &KeySymbols) -> (r: Result<
    Box<KeyCode>,
    String,
>)
    ensures
        match r {
            Ok(key) => shape_of(v@, symbols@) == Ok::<KeyShape, Seq<char>>(key.shape()),
            Err(message) => shape_of(v@, symbols@) == Err::<KeyShape, Seq<char>>(message@),
        },
    decreases v, 1int,
{
    match NormalKey::from_tokens(v, symbols) {
        Ok(k) => {
            return Ok(Box::new(KeyCode::Normal(k)));
        },
        Err(_) => {},
    }
    match TransparentKey::from_tokens(v) {
        Ok(k) => {
            return Ok(Box::new(KeyCode::Transparent(k)));
        },
        Err(_) => {},
    }
    match OpaqueKey::from_tokens(v) {
        Ok(k) => {
            return Ok(Box::new(KeyCode::Opaque(k)));
        },
        Err(_) => {},
    }
    match MacroKey::from_tokens(v, symbols) {
        Ok(k) => {
            return Ok(Box::new(KeyCode::Macro(k)));
        },
        Err(_) => {},
    }
    match ToggleLayerKey::from_tokens(v) {
        Ok(k) => {
            return Ok(Box::new(KeyCode::ToggleLayer(k)));
        },
        Err(_) => {},
    }
    match MomentarilyEnableLayerKey::from_tokens(v) {
        Ok(k) => {
            return Ok(Box::new(KeyCode::MomentarilyEnableLayer(k)));
        },
        Err(_) => {},
    }
    match ActivateLayerKey::from_tokens(v) {
        Ok(k) => {
            return Ok(Box::new(KeyCode::ActivateLayer(k)));
        },
        Err(_) => {},
    }
    match HoldEnableLayerPressKey::from_tokens(v, symbols) {
        Ok(k) => {
            return Ok(Box::new(KeyCode::HoldEnableLayerPress(k)));
        },
        Err(_) => {},
    }
    match OneShotLayer::from_tokens(v) {
        Ok(k) => {
            return Ok(Box::new(KeyCode::OneShotLayer(k)));
        },
        Err(_) => {},
    }
    match WrappedKey::from_tokens(v, symbols) {
        Ok(k) => {
            return Ok(Box::new(KeyCode::Wrapped(k)));
        },
        Err(_) => {},
    }
    match SpaceCadet::from_tokens(v, symbols) {
        Ok(k) => {
            return Ok(Box::new(KeyCode::SpaceCadet(k)));
        },
        Err(_) => {},
    }
    Err(String::from_str("Failed to convert key tree into a key."))
}


/// The texts as mathematical values.
pub open spec fn text_views(texts: Seq<String>) -> Seq<Seq<char>> {
    texts.map_values(|t: String| t@)
}

/// The names of hardware keys that the first `n` of `trees` ask for.
pub open spec fn names_in_all(trees: Seq<KeyTree>, n: nat) -> Seq<Seq<char>>
    decreases trees, n,
{
    if n == 0 || n > trees.len() {
        Seq::empty()
    } else {
        names_in_all(trees, (n - 1) as nat) + names_in(trees[n - 1])
    }
}

/// The names of hardware keys that `tree` asks for when it is made into a
/// key: the name that each part of it stands for that has one underscore
/// and no arguments, the tree itself first and then its arguments in
/// their order.
pub open spec fn names_in(tree: KeyTree) -> Seq<Seq<char>>
    decreases tree,
{
    let own = if tree.args.len() == 0 && occurrences(tree.identifier, '_', tree.identifier.len())
        == 1 {
        seq![symbol_name(tree.identifier)]
    } else {
        Seq::empty()
    };
    own + names_in_all(tree.args, tree.args.len())
}

/// Adds to `names` the names of hardware keys that `item` asks for.
pub fn symbol_names(item: &ParsedKeyTree, names: &mut Vec<String>)
    ensures
        text_views(final(names)@) == text_views(old(names)@) + names_in(item@),
    decreases item,
{
    let ghost before = text_views(names@);
    if item.args.len() == 0 {
        let (underscores, first) = count_and_find(item.identifier, '_');
        if underscores == 1 {
            proof {
                lemma_first_occurrence(item.identifier@, '_', item.identifier@.len());
            }
            let len = item.identifier.unicode_len();
            let suffix = item.identifier.substring_char(first + 1, len);
            let mut name = String::from_str("KEY_");
            name.append(suffix);
            let trial = to_uppercase(name.as_str());
            proof {
                assert(text_views(names@.push(trial)) =~= before + seq![
                    symbol_name(item@.identifier),
                ]);
            }
            names.push(trial);
        }
    }
    let ghost own = text_views(names@);
    let mut i: usize = 0;
    proof {
        assert(own + names_in_all(item@.args, 0) =~= own);
    }
    while i < item.args.len()
        invariant
            i <= item.args@.len(),
            item@.args.len() == item.args@.len(),
            text_views(names@) == own + names_in_all(item@.args, i as nat),
        decreases item.args@.len() - i,
    {
        assert(item@.args[i as int] == item.args@[i as int]@);
        let ghost so_far = text_views(names@);
        symbol_names(&item.args[i], names);
        proof {
            assert(so_far + names_in(item@.args[i as int]) =~= own + names_in_all(
                item@.args,
                (i + 1) as nat,
            ));
        }
        i += 1;
    }
    proof {
        assert(before + names_in(item@) =~= own + names_in_all(item@.args, item@.args.len()));
    }
}


/// True when the tables `a` and `b` know the same of each of `names`.
pub open spec fn agree_on(a: Map<Seq<char>, u16>, b: Map<Seq<char>, u16>, names: Seq<Seq<char>>) -> bool {
    forall|i: int|
        0 <= i < names.len() ==> a.contains_key(#[trigger] names[i]) == b.contains_key(names[i])
            && (a.contains_key(names[i]) ==> a[names[i]] == b[names[i]])
}

/// Tables that agree on names agree on the first and on the last of them.
pub proof fn lemma_agree_on_parts(
    a: Map<Seq<char>, u16>,
    b: Map<Seq<char>, u16>,
    first: Seq<Seq<char>>,
    last: Seq<Seq<char>>,
)
    requires
        agree_on(a, b, first + last),
    ensures
        agree_on(a, b, first),
        agree_on(a, b, last),
{
    let all = first + last;
    assert forall|i: int| 0 <= i < first.len() implies a.contains_key(#[trigger] first[i])
        == b.contains_key(first[i]) && (a.contains_key(first[i]) ==> a[first[i]]
        == b[first[i]]) by {
        assert(all[i] == first[i]);
    }
    assert forall|i: int| 0 <= i < last.len() implies a.contains_key(#[trigger] last[i])
        == b.contains_key(last[i]) && (a.contains_key(last[i]) ==> a[last[i]] == b[last[i]]) by {
        assert(all[first.len() + i] == last[i]);
    }
}

/// Tables that agree on the names that the first `n` trees ask for agree
/// on the names that each of these trees asks for.
pub proof fn lemma_agree_on_each(
    a: Map<Seq<char>, u16>,
    b: Map<Seq<char>, u16>,
    trees: Seq<KeyTree>,
    n: nat,
    k: int,
)
    requires
        n <= trees.len(),
        0 <= k < n,
        agree_on(a, b, names_in_all(trees, n)),
    ensures
        agree_on(a, b, names_in(trees[k])),
    decreases n,
{
    lemma_agree_on_parts(a, b, names_in_all(trees, (n - 1) as nat), names_in(trees[n - 1]));
    if k < n - 1 {
        lemma_agree_on_each(a, b, trees, (n - 1) as nat, k);
    }
}

/// Tables that agree on the names that a tree asks for find the same
/// hardware key in it, or the same fault.
pub proof fn lemma_normal_of_agrees(tree: KeyTree, a: Map<Seq<char>, u16>, b: Map<Seq<char>, u16>)
    requires
        agree_on(a, b, names_in(tree)),
    ensures
        normal_of(tree, a) == normal_of(tree, b),
{
    if tree.args.len() == 0 && occurrences(tree.identifier, '_', tree.identifier.len()) == 1 {
        assert(names_in(tree)[0] == symbol_name(tree.identifier));
    }
}

/// Tables that agree on the names that arguments ask for find the same
/// keys of a macro in them, or the same fault.
pub proof fn lemma_macro_keys_agree(
    args: Seq<KeyTree>,
    n: nat,
    a: Map<Seq<char>, u16>,
    b: Map<Seq<char>, u16>,
)
    requires
        n <= args.len(),
        agree_on(a, b, names_in_all(args, n)),
    ensures
        macro_keys(args, n, a) == macro_keys(args, n, b),
    decreases n,
{
    if n > 0 {
        lemma_agree_on_parts(a, b, names_in_all(args, (n - 1) as nat), names_in(args[n - 1]));
        lemma_macro_keys_agree(args, (n - 1) as nat, a, b);
        lemma_normal_of_agrees(args[n - 1], a, b);
    }
}

/// Tables of symbols that agree on the names that a tree asks for make
/// the same key of it, or find the same fault: the names that it asks for
/// are all that a table has to know.
pub proof fn lemma_shape_of_agrees(tree: KeyTree, a: Map<Seq<char>, u16>, b: Map<Seq<char>, u16>)
    requires
        agree_on(a, b, names_in(tree)),
    ensures
        shape_of(tree, a) == shape_of(tree, b),
        wrapped_of(tree, a) == wrapped_of(tree, b),
        space_cadet_of(tree, a) == space_cadet_of(tree, b),
    decreases tree,
{
    let own = if tree.args.len() == 0 && occurrences(tree.identifier, '_', tree.identifier.len())
        == 1 {
        seq![symbol_name(tree.identifier)]
    } else {
        Seq::empty()
    };
    lemma_agree_on_parts(a, b, own, names_in_all(tree.args, tree.args.len()));
    lemma_normal_of_agrees(tree, a, b);
    lemma_macro_keys_agree(tree.args, tree.args.len(), a, b);
    assert(macro_of(tree, a) == macro_of(tree, b));
    if tree.args.len() == 3 {
        lemma_agree_on_each(a, b, tree.args, tree.args.len(), 1);
        lemma_normal_of_agrees(tree.args[1], a, b);
    }
    assert(hold_of(tree, a) == hold_of(tree, b));
    if tree.args.len() == 2 {
        lemma_agree_on_each(a, b, tree.args, tree.args.len(), 0);
        lemma_agree_on_each(a, b, tree.args, tree.args.len(), 1);
        lemma_normal_of_agrees(tree.args[0], a, b);
        lemma_normal_of_agrees(tree.args[1], a, b);
        lemma_shape_of_agrees(tree.args[0], a, b);
        lemma_shape_of_agrees(tree.args[1], a, b);
    }
    assert(wrapped_of(tree, a) == wrapped_of(tree, b));
    assert(space_cadet_of(tree, a) == space_cadet_of(tree, b));
}

} // verus!
