//! The blend modes: the composing kernels a layer or a stroke lays pixels down
//! through, their wire names and their PSD keys.
use crate::strings::same_text;
use vstd::prelude::*;

verus! {

/// A composing kernel. The variants stand in the order of their wire names.
#[derive(Debug, Clone, Copy, PartialEq, Eq, Structural)]
pub enum BlendMode {
    Color,
    ColorBurn,
    ColorDodge,
    Darken,
    DarkerColor,
    Difference,
    Divide,
    Exclusion,
    HardLight,
    HardMix,
    Hue,
    Lighten,
    LighterColor,
    LinearBurn,
    LinearDodge,
    LinearLight,
    Luminosity,
    Multiply,
    Normal,
    Overlay,
    PinLight,
    Saturation,
    Screen,
    SoftLight,
    Subtract,
    VividLight,
}

impl BlendMode {
    /// The mode's wire name: its kernel id without the `compose.` prefix.
    pub open spec fn wire(self) -> Seq<char> {
        match self {
            BlendMode::Color => "color"@,
            BlendMode::ColorBurn => "color_burn"@,
            BlendMode::ColorDodge => "color_dodge"@,
            BlendMode::Darken => "darken"@,
            BlendMode::DarkerColor => "darker_color"@,
            BlendMode::Difference => "difference"@,
            BlendMode::Divide => "divide"@,
            BlendMode::Exclusion => "exclusion"@,
            BlendMode::HardLight => "hard_light"@,
            BlendMode::HardMix => "hard_mix"@,
            BlendMode::Hue => "hue"@,
            BlendMode::Lighten => "lighten"@,
            BlendMode::LighterColor => "lighter_color"@,
            BlendMode::LinearBurn => "linear_burn"@,
            BlendMode::LinearDodge => "linear_dodge"@,
            BlendMode::LinearLight => "linear_light"@,
            BlendMode::Luminosity => "luminosity"@,
            BlendMode::Multiply => "multiply"@,
            BlendMode::Normal => "normal"@,
            BlendMode::Overlay => "overlay"@,
            BlendMode::PinLight => "pin_light"@,
            BlendMode::Saturation => "saturation"@,
            BlendMode::Screen => "screen"@,
            BlendMode::SoftLight => "soft_light"@,
            BlendMode::Subtract => "subtract"@,
            BlendMode::VividLight => "vivid_light"@,
        }
    }

    /// The mode's kernel id.
    pub open spec fn id(self) -> Seq<char> {
        "compose."@ + self.wire()
    }

    /// The mode's place in the order of the wire names.
    pub open spec fn rank(self) -> int {
        match self {
            BlendMode::Color => 0,
            BlendMode::ColorBurn => 1,
            BlendMode::ColorDodge => 2,
            BlendMode::Darken => 3,
            BlendMode::DarkerColor => 4,
            BlendMode::Difference => 5,
            BlendMode::Divide => 6,
            BlendMode::Exclusion => 7,
            BlendMode::HardLight => 8,
            BlendMode::HardMix => 9,
            BlendMode::Hue => 10,
            BlendMode::Lighten => 11,
            BlendMode::LighterColor => 12,
            BlendMode::LinearBurn => 13,
            BlendMode::LinearDodge => 14,
            BlendMode::LinearLight => 15,
            BlendMode::Luminosity => 16,
            BlendMode::Multiply => 17,
            BlendMode::Normal => 18,
            BlendMode::Overlay => 19,
            BlendMode::PinLight => 20,
            BlendMode::Saturation => 21,
            BlendMode::Screen => 22,
            BlendMode::SoftLight => 23,
            BlendMode::Subtract => 24,
            BlendMode::VividLight => 25,
        }
    }

    /// The mode's four-byte key in a PSD layer record, big-endian.
    pub open spec fn psd_key(self) -> u32 {
        match self {
            BlendMode::Color => 0x636f6c72,
            BlendMode::ColorBurn => 0x69646976,
            BlendMode::ColorDodge => 0x64697620,
            BlendMode::Darken => 0x6461726b,
            BlendMode::DarkerColor => 0x646b436c,
            BlendMode::Difference => 0x64696666,
            BlendMode::Divide => 0x66646976,
            BlendMode::Exclusion => 0x736d7564,
            BlendMode::HardLight => 0x684c6974,
            BlendMode::HardMix => 0x684d6978,
            BlendMode::Hue => 0x68756520,
            BlendMode::Lighten => 0x6c697465,
            BlendMode::LighterColor => 0x6c67436c,
            BlendMode::LinearBurn => 0x6c62726e,
            BlendMode::LinearDodge => 0x6c646467,
            BlendMode::LinearLight => 0x6c4c6974,
            BlendMode::Luminosity => 0x6c756d20,
            BlendMode::Multiply => 0x6d756c20,
            BlendMode::Normal => 0x6e6f726d,
            BlendMode::Overlay => 0x6f766572,
            BlendMode::PinLight => 0x704c6974,
            BlendMode::Saturation => 0x73617420,
            BlendMode::Screen => 0x7363726e,
            BlendMode::SoftLight => 0x734c6974,
            BlendMode::Subtract => 0x66737562,
            BlendMode::VividLight => 0x764c6974,
        }
    }

    /// The mode's wire name, for the panel's picker and the readouts.
    pub fn name(self) -> (name: &'static str)
        ensures
            name@ == self.wire(),
    {
        match self {
            BlendMode::Color => "color",
            BlendMode::ColorBurn => "color_burn",
            BlendMode::ColorDodge => "color_dodge",
            BlendMode::Darken => "darken",
            BlendMode::DarkerColor => "darker_color",
            BlendMode::Difference => "difference",
            BlendMode::Divide => "divide",
            BlendMode::Exclusion => "exclusion",
            BlendMode::HardLight => "hard_light",
            BlendMode::HardMix => "hard_mix",
            BlendMode::Hue => "hue",
            BlendMode::Lighten => "lighten",
            BlendMode::LighterColor => "lighter_color",
            BlendMode::LinearBurn => "linear_burn",
            BlendMode::LinearDodge => "linear_dodge",
            BlendMode::LinearLight => "linear_light",
            BlendMode::Luminosity => "luminosity",
            BlendMode::Multiply => "multiply",
            BlendMode::Normal => "normal",
            BlendMode::Overlay => "overlay",
            BlendMode::PinLight => "pin_light",
            BlendMode::Saturation => "saturation",
            BlendMode::Screen => "screen",
            BlendMode::SoftLight => "soft_light",
            BlendMode::Subtract => "subtract",
            BlendMode::VividLight => "vivid_light",
        }
    }

    /// Whether `text` names this mode, with or without the prefix.
    pub open spec fn named_by(self, text: Seq<char>) -> bool {
        text == self.wire() || text == self.id()
    }

    fn answers_to(self, text: &str) -> (yes: bool)
        ensures
            yes <==> self.named_by(text@),
    {
        let mut id: String = "compose.".to_owned();
        id.append(self.name());
        same_text(text, self.name()) || same_text(text, id.as_str())
    }
}

/// The length, the first and the last character of a wire name, which tell the
/// names apart.
spec fn mark(mode: BlendMode) -> (int, char, char) {
    match mode {
        BlendMode::Color => (5, 'c', 'r'),
        BlendMode::ColorBurn => (10, 'c', 'n'),
        BlendMode::ColorDodge => (11, 'c', 'e'),
        BlendMode::Darken => (6, 'd', 'n'),
        BlendMode::DarkerColor => (12, 'd', 'r'),
        BlendMode::Difference => (10, 'd', 'e'),
        BlendMode::Divide => (6, 'd', 'e'),
        BlendMode::Exclusion => (9, 'e', 'n'),
        BlendMode::HardLight => (10, 'h', 't'),
        BlendMode::HardMix => (8, 'h', 'x'),
        BlendMode::Hue => (3, 'h', 'e'),
        BlendMode::Lighten => (7, 'l', 'n'),
        BlendMode::LighterColor => (13, 'l', 'r'),
        BlendMode::LinearBurn => (11, 'l', 'n'),
        BlendMode::LinearDodge => (12, 'l', 'e'),
        BlendMode::LinearLight => (12, 'l', 't'),
        BlendMode::Luminosity => (10, 'l', 'y'),
        BlendMode::Multiply => (8, 'm', 'y'),
        BlendMode::Normal => (6, 'n', 'l'),
        BlendMode::Overlay => (7, 'o', 'y'),
        BlendMode::PinLight => (9, 'p', 't'),
        BlendMode::Saturation => (10, 's', 'n'),
        BlendMode::Screen => (6, 's', 'n'),
        BlendMode::SoftLight => (10, 's', 't'),
        BlendMode::Subtract => (8, 's', 't'),
        BlendMode::VividLight => (11, 'v', 't'),
    }
}

proof fn lemma_mark(mode: BlendMode)
    ensures
        mode.wire().len() == mark(mode).0,
        mode.wire()[0] == mark(mode).1,
        mode.wire()[mark(mode).0 - 1] == mark(mode).2,
        mode.wire()[0] == 'c' ==> mode.wire()[2] == 'l',
{
    reveal_strlit("color");
    reveal_strlit("color_burn");
    reveal_strlit("color_dodge");
    reveal_strlit("darken");
    reveal_strlit("darker_color");
    reveal_strlit("difference");
    reveal_strlit("divide");
    reveal_strlit("exclusion");
    reveal_strlit("hard_light");
    reveal_strlit("hard_mix");
    reveal_strlit("hue");
    reveal_strlit("lighten");
    reveal_strlit("lighter_color");
    reveal_strlit("linear_burn");
    reveal_strlit("linear_dodge");
    reveal_strlit("linear_light");
    reveal_strlit("luminosity");
    reveal_strlit("multiply");
    reveal_strlit("normal");
    reveal_strlit("overlay");
    reveal_strlit("pin_light");
    reveal_strlit("saturation");
    reveal_strlit("screen");
    reveal_strlit("soft_light");
    reveal_strlit("subtract");
    reveal_strlit("vivid_light");
}

/// A text names at most one mode.
pub proof fn blend_names_are_distinct(a: BlendMode, b: BlendMode, text: Seq<char>)
    requires
        a.named_by(text),
        b.named_by(text),
    ensures
        a == b,
{
    lemma_mark(a);
    lemma_mark(b);
    reveal_strlit("compose.");
    if text == a.id() {
        assert(text[0] == 'c' && text[2] == 'm');
        assert(text.skip(8) =~= a.wire());
    }
    if text == b.id() {
        assert(text[0] == 'c' && text[2] == 'm');
        assert(text.skip(8) =~= b.wire());
    }
    assert(a.wire() == b.wire());
    assert(mark(a) == mark(b));
}

/// Every mode, in the order of the wire names.
pub fn blend_modes() -> (modes: Vec<BlendMode>)
    ensures
        modes@.len() == 26,
        forall|mode: BlendMode| 0 <= #[trigger] mode.rank() < 26 && modes@[mode.rank()] == mode,
        forall|i: int| 0 <= i < 26 ==> (#[trigger] modes@[i]).rank() == i,
{
    let mut modes: Vec<BlendMode> = Vec::new();
    modes.push(BlendMode::Color);
    modes.push(BlendMode::ColorBurn);
    modes.push(BlendMode::ColorDodge);
    modes.push(BlendMode::Darken);
    modes.push(BlendMode::DarkerColor);
    modes.push(BlendMode::Difference);
    modes.push(BlendMode::Divide);
    modes.push(BlendMode::Exclusion);
    modes.push(BlendMode::HardLight);
    modes.push(BlendMode::HardMix);
    modes.push(BlendMode::Hue);
    modes.push(BlendMode::Lighten);
    modes.push(BlendMode::LighterColor);
    modes.push(BlendMode::LinearBurn);
    modes.push(BlendMode::LinearDodge);
    modes.push(BlendMode::LinearLight);
    modes.push(BlendMode::Luminosity);
    modes.push(BlendMode::Multiply);
    modes.push(BlendMode::Normal);
    modes.push(BlendMode::Overlay);
    modes.push(BlendMode::PinLight);
    modes.push(BlendMode::Saturation);
    modes.push(BlendMode::Screen);
    modes.push(BlendMode::SoftLight);
    modes.push(BlendMode::Subtract);
    modes.push(BlendMode::VividLight);
    modes
}

/// Resolve a blend mode by its wire name (`"multiply"`) or its kernel id
/// (`"compose.multiply"`). An unknown name resolves to nothing.
pub fn blend_kernel(name: &str) -> (mode: Option<BlendMode>)
    ensures
        mode matches Some(m) ==> m.named_by(name@),
        mode is None ==> forall|m: BlendMode| !(#[trigger] m.named_by(name@)),
        forall|m: BlendMode| #[trigger] m.named_by(name@) ==> mode == Some(m),
{
    let modes: Vec<BlendMode> = blend_modes();
    let mut i: usize = 0;
    while i < modes.len()
        invariant
            i <= modes@.len(),
            modes@.len() == 26,
            forall|mode: BlendMode| 0 <= #[trigger] mode.rank() < 26 && modes@[mode.rank()] == mode,
            forall|m: BlendMode| m.rank() < i ==> !(#[trigger] m.named_by(name@)),
        decreases modes@.len() - i,
    {
        let mode: BlendMode = modes[i];
        if mode.answers_to(name) {
            proof {
                assert forall|m: BlendMode| #[trigger] m.named_by(name@) implies Some(mode) == Some(m) by {
                    blend_names_are_distinct(m, mode, name@);
                }
            }
            return Some(mode);
        }
        i = i + 1;
        proof {
            assert forall|m: BlendMode| m.rank() < i implies !(#[trigger] m.named_by(name@)) by {
                if m.rank() == i - 1 {
                    assert(modes@[m.rank()] == m);
                }
            }
        }
    }
    proof {
        assert forall|m: BlendMode| !(#[trigger] m.named_by(name@)) by {
            assert(m.rank() < 26);
        }
    }
    None
}

/// The wire names of every blend mode, in order: what the picker lists.
pub fn blend_names() -> (names: Vec<&'static str>)
    ensures
        names@.len() == 26,
        forall|mode: BlendMode| names@[#[trigger] mode.rank()]@ == mode.wire(),
{
    let modes: Vec<BlendMode> = blend_modes();
    let mut names: Vec<&'static str> = Vec::new();
    let mut i: usize = 0;
    while i < modes.len()
        invariant
            i <= modes@.len(),
            modes@.len() == 26,
            names@.len() == i,
            forall|j: int| 0 <= j < i ==> (#[trigger] names@[j])@ == modes@[j].wire(),
            forall|mode: BlendMode| 0 <= #[trigger] mode.rank() < 26 && modes@[mode.rank()] == mode,
        decreases modes@.len() - i,
    {
        names.push(modes[i].name());
        i = i + 1;
    }
    names
}

/// The big-endian number of a four-byte key.
pub open spec fn key_number(key: Seq<u8>) -> u32 {
    (key[0] * 0x100_0000 + key[1] * 0x1_0000 + key[2] * 0x100 + key[3]) as u32
}

/// The blend mode of a PSD blend key. Every mode has a key; any other key
/// falls back to normal, so that the layer reads as normal instead of claiming
/// otherwise.
pub fn psd_blend_kernel(key: &[u8; 4]) -> (mode: BlendMode)
    ensures
        forall|m: BlendMode| #[trigger] m.psd_key() == key_number(key@) ==> mode == m,
        (forall|m: BlendMode| #[trigger] m.psd_key() != key_number(key@)) ==> mode is Normal,
{
    let n: u32 = key[0] as u32 * 0x100_0000 + key[1] as u32 * 0x1_0000 + key[2] as u32 * 0x100
        + key[3] as u32;
    let mode: BlendMode = match n {
        0x6e6f726d => BlendMode::Normal,
        0x6d756c20 => BlendMode::Multiply,
        0x7363726e => BlendMode::Screen,
        0x6f766572 => BlendMode::Overlay,
        0x6461726b => BlendMode::Darken,
        0x6c697465 => BlendMode::Lighten,
        0x64697620 => BlendMode::ColorDodge,
        0x69646976 => BlendMode::ColorBurn,
        0x684c6974 => BlendMode::HardLight,
        0x734c6974 => BlendMode::SoftLight,
        0x64696666 => BlendMode::Difference,
        0x736d7564 => BlendMode::Exclusion,
        0x68756520 => BlendMode::Hue,
        0x73617420 => BlendMode::Saturation,
        0x636f6c72 => BlendMode::Color,
        0x6c756d20 => BlendMode::Luminosity,
        0x6c62726e => BlendMode::LinearBurn,
        0x6c646467 => BlendMode::LinearDodge,
        0x646b436c => BlendMode::DarkerColor,
        0x6c67436c => BlendMode::LighterColor,
        0x764c6974 => BlendMode::VividLight,
        0x6c4c6974 => BlendMode::LinearLight,
        0x704c6974 => BlendMode::PinLight,
        0x684d6978 => BlendMode::HardMix,
        0x66737562 => BlendMode::Subtract,
        0x66646976 => BlendMode::Divide,
        _ => BlendMode::Normal,
    };
    assert(mode is Normal || mode.psd_key() == n);
    mode
}

/// A layer record's key spells its mode, and the file of one editor means the same
/// blend in another.
pub proof fn a_key_spells_its_mode()
    ensures
        key_number(seq!['n' as u8, 'o' as u8, 'r' as u8, 'm' as u8]) == BlendMode::Normal.psd_key(),
        key_number(seq!['m' as u8, 'u' as u8, 'l' as u8, ' ' as u8]) == BlendMode::Multiply.psd_key(),
        key_number(seq!['s' as u8, 'c' as u8, 'r' as u8, 'n' as u8]) == BlendMode::Screen.psd_key(),
        key_number(seq!['o' as u8, 'v' as u8, 'e' as u8, 'r' as u8]) == BlendMode::Overlay.psd_key(),
        key_number(seq!['d' as u8, 'a' as u8, 'r' as u8, 'k' as u8]) == BlendMode::Darken.psd_key(),
        key_number(seq!['l' as u8, 'i' as u8, 't' as u8, 'e' as u8]) == BlendMode::Lighten.psd_key(),
        key_number(seq!['d' as u8, 'i' as u8, 'v' as u8, ' ' as u8]) == BlendMode::ColorDodge.psd_key(),
        key_number(seq!['i' as u8, 'd' as u8, 'i' as u8, 'v' as u8]) == BlendMode::ColorBurn.psd_key(),
        key_number(seq!['h' as u8, 'L' as u8, 'i' as u8, 't' as u8]) == BlendMode::HardLight.psd_key(),
        key_number(seq!['s' as u8, 'L' as u8, 'i' as u8, 't' as u8]) == BlendMode::SoftLight.psd_key(),
        key_number(seq!['d' as u8, 'i' as u8, 'f' as u8, 'f' as u8]) == BlendMode::Difference.psd_key(),
        key_number(seq!['s' as u8, 'm' as u8, 'u' as u8, 'd' as u8]) == BlendMode::Exclusion.psd_key(),
        key_number(seq!['h' as u8, 'u' as u8, 'e' as u8, ' ' as u8]) == BlendMode::Hue.psd_key(),
        key_number(seq!['s' as u8, 'a' as u8, 't' as u8, ' ' as u8]) == BlendMode::Saturation.psd_key(),
        key_number(seq!['c' as u8, 'o' as u8, 'l' as u8, 'r' as u8]) == BlendMode::Color.psd_key(),
        key_number(seq!['l' as u8, 'u' as u8, 'm' as u8, ' ' as u8]) == BlendMode::Luminosity.psd_key(),
        key_number(seq!['l' as u8, 'b' as u8, 'r' as u8, 'n' as u8]) == BlendMode::LinearBurn.psd_key(),
        key_number(seq!['l' as u8, 'd' as u8, 'd' as u8, 'g' as u8]) == BlendMode::LinearDodge.psd_key(),
        key_number(seq!['d' as u8, 'k' as u8, 'C' as u8, 'l' as u8]) == BlendMode::DarkerColor.psd_key(),
        key_number(seq!['l' as u8, 'g' as u8, 'C' as u8, 'l' as u8]) == BlendMode::LighterColor.psd_key(),
        key_number(seq!['v' as u8, 'L' as u8, 'i' as u8, 't' as u8]) == BlendMode::VividLight.psd_key(),
        key_number(seq!['l' as u8, 'L' as u8, 'i' as u8, 't' as u8]) == BlendMode::LinearLight.psd_key(),
        key_number(seq!['p' as u8, 'L' as u8, 'i' as u8, 't' as u8]) == BlendMode::PinLight.psd_key(),
        key_number(seq!['h' as u8, 'M' as u8, 'i' as u8, 'x' as u8]) == BlendMode::HardMix.psd_key(),
        key_number(seq!['f' as u8, 's' as u8, 'u' as u8, 'b' as u8]) == BlendMode::Subtract.psd_key(),
        key_number(seq!['f' as u8, 'd' as u8, 'i' as u8, 'v' as u8]) == BlendMode::Divide.psd_key(),
{
}

} // verus!
