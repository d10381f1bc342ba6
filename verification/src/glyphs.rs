use vstd::prelude::*;

use crate::scale::{clamp_between, scaled_level, spec_scaled_level};

verus! {

/// Block glyph of sparkline level `level` for levels 0 to 7
pub open spec fn level_glyph(level: int) -> char {
    if level <= 0 {
        '▁'
    } else if level == 1 {
        '▂'
    } else if level == 2 {
        '▃'
    } else if level == 3 {
        '▄'
    } else if level == 4 {
        '▅'
    } else if level == 5 {
        '▆'
    } else if level == 6 {
        '▇'
    } else {
        '█'
    }
}

fn level_char(level: usize) -> (glyph: char)
    ensures
        glyph == level_glyph(level as int),
{
    if level == 0 {
        '▁'
    } else if level == 1 {
        '▂'
    } else if level == 2 {
        '▃'
    } else if level == 3 {
        '▄'
    } else if level == 4 {
        '▅'
    } else if level == 5 {
        '▆'
    } else if level == 6 {
        '▇'
    } else {
        '█'
    }
}

/// Smallest and largest sample, or zeros without samples
pub open spec fn spec_sparkline_bounds(values: Seq<u64>) -> (u64, u64)
    decreases values.len(),
{
    if values.len() == 0 {
        (0, 0)
    } else if values.len() == 1 {
        (values[0], values[0])
    } else {
        let rest = spec_sparkline_bounds(values.drop_last());
        let value = values.last();
        (
            if value < rest.0 {
                value
            } else {
                rest.0
            },
            if value > rest.1 {
                value
            } else {
                rest.1
            },
        )
    }
}

/// Finds the smallest and largest sample
pub fn sparkline_bounds(values: &[u64]) -> (bounds: (u64, u64))
    ensures
        bounds == spec_sparkline_bounds(values@),
{
    if values.len() == 0 {
        return (0, 0);
    }
    let mut bounds = (values[0], values[0]);
    let mut index: usize = 1;
    proof {
        assert(values@.take(1).len() == 1);
    }
    while index < values.len()
        invariant
            1 <= index <= values@.len(),
            bounds == spec_sparkline_bounds(values@.take(index as int)),
        decreases values@.len() - index,
    {
        proof {
            assert(values@.take(index + 1).drop_last() =~= values@.take(index as int));
        }
        let value = values[index];
        bounds = (
            if value < bounds.0 {
                value
            } else {
                bounds.0
            },
            if value > bounds.1 {
                value
            } else {
                bounds.1
            },
        );
        index = index + 1;
    }
    assert(values@.take(values@.len() as int) =~= values@);
    bounds
}

/// The glyphs of samples scaled within `minimum..=maximum`
pub open spec fn sample_glyphs(values: Seq<u64>, minimum: u64, maximum: u64) -> Seq<char> {
    values.map_values(|value: u64| level_glyph(spec_scaled_level(value, minimum, maximum, 7)))
}

/// The newest samples that fit in `width` cells, right-aligned behind spaces
pub open spec fn spec_render_sparkline(
    values: Seq<u64>,
    width: u16,
    bounds: Option<(u64, u64)>,
) -> Seq<char> {
    if width == 0 {
        Seq::empty()
    } else {
        let range = match bounds {
            Some(b) => b,
            None => spec_sparkline_bounds(values),
        };
        let start = if values.len() > width {
            values.len() - width
        } else {
            0
        };
        let visible = values.subrange(start as int, values.len() as int);
        Seq::new((width - visible.len()) as nat, |index: int| ' ') + sample_glyphs(
            visible,
            range.0,
            range.1,
        )
    }
}

/// Renders samples as one row of block glyphs
pub fn render_sparkline(values: &[u64], width: u16, bounds: Option<(u64, u64)>) -> (rendered:
    String)
    ensures
        rendered@ == spec_render_sparkline(values@, width, bounds),
{
    let cells = width as usize;
    let mut output = String::new();
    if cells == 0 {
        return output;
    }
    let range = match bounds {
        Some(b) => b,
        None => sparkline_bounds(values),
    };
    let start = if values.len() > cells {
        values.len() - cells
    } else {
        0
    };
    let ghost visible = values@.subrange(start as int, values@.len() as int);
    let padding = cells - (values.len() - start);
    let mut written: usize = 0;
    while written < padding
        invariant
            written <= padding,
            output@ == Seq::new(written as nat, |index: int| ' '),
        decreases padding - written,
    {
        output.push(' ');
        written = written + 1;
        assert(output@ =~= Seq::new(written as nat, |index: int| ' '));
    }
    let ghost spaces = output@;
    let mut index = start;
    while index < values.len()
        invariant
            start <= index <= values@.len(),
            visible == values@.subrange(start as int, values@.len() as int),
            output@ == spaces + sample_glyphs(visible.take(index - start), range.0, range.1),
        decreases values@.len() - index,
    {
        let level = scaled_level(values[index], range.0, range.1, 7);
        output.push(level_char(level));
        proof {
            assert(visible.take(index - start + 1) =~= visible.take(index - start).push(
                values@[index as int],
            ));
            assert(sample_glyphs(visible.take(index - start + 1), range.0, range.1) =~= sample_glyphs(
                visible.take(index - start),
                range.0,
                range.1,
            ).push(level_glyph(level as int)));
        }
        index = index + 1;
    }
    proof {
        assert(visible.take(visible.len() as int) =~= visible);
    }
    output
}

/// Spinner frame `index` for frames 0 to 9
pub open spec fn spinner_frame(index: int) -> char {
    if index == 0 {
        '⠋'
    } else if index == 1 {
        '⠙'
    } else if index == 2 {
        '⠹'
    } else if index == 3 {
        '⠸'
    } else if index == 4 {
        '⠼'
    } else if index == 5 {
        '⠴'
    } else if index == 6 {
        '⠦'
    } else if index == 7 {
        '⠧'
    } else if index == 8 {
        '⠇'
    } else {
        '⠏'
    }
}

fn spinner_frame_char(index: u64) -> (frame: char)
    ensures
        frame == spinner_frame(index as int),
{
    if index == 0 {
        '⠋'
    } else if index == 1 {
        '⠙'
    } else if index == 2 {
        '⠹'
    } else if index == 3 {
        '⠸'
    } else if index == 4 {
        '⠼'
    } else if index == 5 {
        '⠴'
    } else if index == 6 {
        '⠦'
    } else if index == 7 {
        '⠧'
    } else if index == 8 {
        '⠇'
    } else {
        '⠏'
    }
}

/// The spinner text at `tick`: the frame cycling through ten frames, then the label after a
/// space when there is one
pub open spec fn spec_spinner_text(tick: u64, label: Seq<char>) -> Seq<char> {
    let frame = seq![spinner_frame((tick % 10) as int)];
    if label.len() == 0 {
        frame
    } else {
        frame + seq![' '] + label
    }
}

/// Renders the spinner frame for `tick` with its optional label
pub fn spinner_text(tick: u64, label: &str) -> (text: String)
    ensures
        text@ == spec_spinner_text(tick, label@),
{
    let mut text = String::new();
    text.push(spinner_frame_char(tick % 10));
    if label.is_empty() {
        return text;
    }
    text.push(' ');
    text.push_str(label);
    text
}

/// The spinner cycles with period ten: the text ten ticks later is the same, and two ticks
/// show the same frame exactly when they leave the same remainder modulo ten; the label follows
/// the frame unchanged
pub proof fn lemma_spinner_cycles_every_ten_ticks(tick: u64, other: u64, label: Seq<char>)
    ensures
        tick + 10 <= u64::MAX ==> spec_spinner_text((tick + 10) as u64, label) == spec_spinner_text(
            tick,
            label,
        ),
        spec_spinner_text(tick, label).len() >= 1,
        (spec_spinner_text(tick, label)[0] == spec_spinner_text(other, label)[0]) <==> (tick % 10
            == other % 10),
        spec_spinner_text(tick, label).drop_first() == spec_spinner_text(other, label).drop_first(),
{
    let a = (tick % 10) as int;
    let b = (other % 10) as int;
    assert(spec_spinner_text(tick, label)[0] == spinner_frame(a));
    assert(spec_spinner_text(other, label)[0] == spinner_frame(b));
    assert(spec_spinner_text(tick, label).drop_first() =~= spec_spinner_text(other, label).drop_first());
    if tick + 10 <= u64::MAX {
        assert(((tick + 10) as u64) % 10 == tick % 10);
    }
}

} // verus!
