use vstd::prelude::*;

verus! {

/// A pitched sound: step letter, octave and optional alteration.
#[derive(Debug, Clone, Copy, PartialEq, Eq)]
pub struct Pitch {
    pub step: char,
    pub octave: u8,
    pub alter: Option<i8>,
}

/// A note or a rest (a rest has no pitch), or a `backup` marker.
#[derive(Debug, PartialEq)]
pub struct Note {
    pub pitch: Option<Pitch>,
    pub duration: u8,
    pub typee: String,
    pub voice: u8,
    pub staff: Option<u8>,
    pub dot: bool,
    pub is_chord: bool,
}

/// A clef, by its sign letter.
#[derive(Debug, Clone, Copy, PartialEq, Eq)]
pub struct Clef {
    pub sign: char,
}

/// One part of a score: its measures in order.
#[derive(Debug)]
pub struct Part {
    pub measures: Vec<Mesure>,
}

/// A whole score: its parts in order.
#[derive(Debug)]
pub struct ScorePartwise {
    pub parts: Vec<Part>,
}

/// The attributes that open a measure.
#[derive(Debug, PartialEq)]
pub struct Attributes {
    /// Divisions of a quarter note used by the durations.
    pub divisions: u8,
    pub clef: Vec<Clef>,
    pub time: Time,
    pub staves: Option<u8>,
    pub key: i8,
}

/// A time signature.
#[derive(Debug, Clone, Copy, PartialEq, Eq)]
pub struct Time {
    pub beats: u8,
    pub beat_type: u8,
}

/// A measure: optional attributes, then its notes, rests and backups in order.
#[derive(Debug, PartialEq)]
pub struct Mesure {
    pub attributes: Option<Attributes>,
    pub notes: Vec<Note>,
}

/// Any piece of a score.
#[derive(Debug)]
pub enum Element {
    pitch(Pitch),
    note(Note),
    clef(Clef),
    part(Part),
    attributes(Attributes),
    time(Time),
    mesure(Mesure),
}

/// A note as a value: its text field taken by its characters.
pub struct NoteView {
    pub pitch: Option<Pitch>,
    pub duration: u8,
    pub typee: Seq<char>,
    pub voice: u8,
    pub staff: Option<u8>,
    pub dot: bool,
    pub is_chord: bool,
}

/// Measure attributes as a value.
pub struct AttributesView {
    pub divisions: u8,
    pub clef: Seq<Clef>,
    pub time: Time,
    pub staves: Option<u8>,
    pub key: i8,
}

/// A measure as a value.
pub struct MesureView {
    pub attributes: Option<AttributesView>,
    pub notes: Seq<NoteView>,
}

/// Any piece of a score as a value; a part is its sequence of measures.
pub enum ElementView {
    pitch(Pitch),
    note(NoteView),
    clef(Clef),
    part(Seq<MesureView>),
    attributes(AttributesView),
    time(Time),
    mesure(MesureView),
}

impl View for Note {
    type V = NoteView;

    open spec fn view(&self) -> NoteView {
        NoteView {
            pitch: self.pitch,
            duration: self.duration,
            typee: self.typee@,
            voice: self.voice,
            staff: self.staff,
            dot: self.dot,
            is_chord: self.is_chord,
        }
    }
}

impl View for Attributes {
    type V = AttributesView;

    open spec fn view(&self) -> AttributesView {
        AttributesView {
            divisions: self.divisions,
            clef: self.clef@,
            time: self.time,
            staves: self.staves,
            key: self.key,
        }
    }
}

/// The views of a sequence of notes.
pub open spec fn notes_view(notes: Seq<Note>) -> Seq<NoteView> {
    notes.map_values(|n: Note| n@)
}

/// The view of optional attributes.
pub open spec fn attributes_opt_view(a: Option<Attributes>) -> Option<AttributesView> {
    match a {
        Some(a) => Some(a@),
        None => None,
    }
}

impl View for Mesure {
    type V = MesureView;

    open spec fn view(&self) -> MesureView {
        MesureView { attributes: attributes_opt_view(self.attributes), notes: notes_view(self.notes@) }
    }
}

/// The views of a sequence of measures.
pub open spec fn measures_view(ms: Seq<Mesure>) -> Seq<MesureView> {
    ms.map_values(|m: Mesure| m@)
}

impl View for Part {
    type V = Seq<MesureView>;

    open spec fn view(&self) -> Seq<MesureView> {
        measures_view(self.measures@)
    }
}

impl View for ScorePartwise {
    type V = Seq<Seq<MesureView>>;

    open spec fn view(&self) -> Seq<Seq<MesureView>> {
        self.parts@.map_values(|p: Part| p@)
    }
}

impl View for Element {
    type V = ElementView;

    open spec fn view(&self) -> ElementView {
        match self {
            Element::pitch(p) => ElementView::pitch(*p),
            Element::note(n) => ElementView::note(n@),
            Element::clef(c) => ElementView::clef(*c),
            Element::part(p) => ElementView::part(p@),
            Element::attributes(a) => ElementView::attributes(a@),
            Element::time(t) => ElementView::time(*t),
            Element::mesure(m) => ElementView::mesure(m@),
        }
    }
}

impl Clone for Note {
    fn clone(&self) -> (r: Note)
        ensures
            r == *self,
    {
        Note {
            pitch: self.pitch,
            duration: self.duration,
            typee: self.typee.clone(),
            voice: self.voice,
            staff: self.staff,
            dot: self.dot,
            is_chord: self.is_chord,
        }
    }
}

impl Clone for Attributes {
    fn clone(&self) -> (r: Attributes)
        ensures
            r@ == self@,
    {
        let clef = self.clef.clone();
        proof {
            assert(clef@ =~= self.clef@);
        }
        Attributes {
            divisions: self.divisions,
            clef,
            time: self.time,
            staves: self.staves,
            key: self.key,
        }
    }
}

impl Clone for Mesure {
    fn clone(&self) -> (r: Mesure)
        ensures
            r@ == self@,
    {
        let attributes = match &self.attributes {
            Some(a) => Some(a.clone()),
            None => None,
        };
        let notes = self.notes.clone();
        proof {
            assert(notes_view(notes@) =~= notes_view(self.notes@));
        }
        Mesure { attributes, notes }
    }
}

impl Clone for Part {
    fn clone(&self) -> (r: Part)
        ensures
            r@ == self@,
    {
        let measures = self.measures.clone();
        proof {
            assert(measures_view(measures@) =~= measures_view(self.measures@));
        }
        Part { measures }
    }
}

} // verus!
