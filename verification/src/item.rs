//! Payloads carried by the nodes of a scenario.
//!
//! A scenario is a hierarchy of groups, scenes, pages and the things shown on a
//! page: mats (text backgrounds) and overlay images. A page that holds exactly
//! one mat may be written as a point mat, which has the attributes of a mat.
//! The payload of a node is one of these six kinds; the tree itself never looks
//! inside it.

use vstd::prelude::*;

verus! {

/// An RGB colour.
#[derive(Debug, Clone, Copy, PartialEq, Eq, Structural)]
pub struct Color {
    pub r: u32,
    pub g: u32,
    pub b: u32,
}

/// A position in pixels.
#[derive(Debug, Clone, Copy, PartialEq, Eq, Structural)]
pub struct Position {
    pub x: usize,
    pub y: usize,
}

/// A width and a height in pixels.
#[derive(Debug, Clone, Copy, PartialEq, Eq, Structural)]
pub struct Dimension {
    pub w: usize,
    pub h: usize,
}

/// The part of a background image that a scene shows.
#[derive(Debug, Clone, Copy, PartialEq, Eq, Structural)]
pub struct CropInfo {
    pub pos: Position,
    pub dim: Dimension,
}

/// An image laid over a page.
#[derive(Debug)]
pub struct Ovimg {
    pub path: String,
    pub pos: Position,
    pub a: u8,
}

/// A run of pages that share one background.
#[derive(Debug)]
pub struct Scene {
    pub bgimg: Option<String>,
    pub bgcol: Color,
    pub crop: Option<CropInfo>,
    pub lbl: Option<String>,
    pub lblref: Option<String>,
}

/// The background of a text.
#[derive(Debug)]
pub struct Mat {
    pub col: Color,
    pub pos: Position,
    pub dim: Dimension,
    pub r: usize,
    pub a: u8,
    pub src: Option<String>,
    pub lbl: Option<String>,
    pub lblref: Option<String>,
    /// Shown in diagnostic output only.
    pub name: String,
}

/// What a node of the scenario stands for.
#[derive(Debug)]
pub enum Item {
    Group,
    Scene(Scene),
    Page,
    Mat(Mat),
    Ovimg(Ovimg),
    Pmat(Mat),
}

/// A copy of an optional string.
fn copy_opt_string(s: &Option<String>) -> (r: Option<String>)
    ensures
        r == *s,
{
    match s {
        Some(t) => Some(t.clone()),
        None => None,
    }
}

impl Clone for Ovimg {
    fn clone(&self) -> (r: Self)
        ensures
            r == *self,
    {
        Ovimg { path: self.path.clone(), pos: self.pos, a: self.a }
    }
}

impl Clone for Scene {
    fn clone(&self) -> (r: Self)
        ensures
            r == *self,
    {
        Scene {
            bgimg: copy_opt_string(&self.bgimg),
            bgcol: self.bgcol,
            crop: self.crop,
            lbl: copy_opt_string(&self.lbl),
            lblref: copy_opt_string(&self.lblref),
        }
    }
}

impl Clone for Mat {
    fn clone(&self) -> (r: Self)
        ensures
            r == *self,
    {
        Mat {
            col: self.col,
            pos: self.pos,
            dim: self.dim,
            r: self.r,
            a: self.a,
            src: copy_opt_string(&self.src),
            lbl: copy_opt_string(&self.lbl),
            lblref: copy_opt_string(&self.lblref),
            name: self.name.clone(),
        }
    }
}

impl Clone for Item {
    fn clone(&self) -> (r: Self)
        ensures
            r == *self,
    {
        match self {
            Item::Group => Item::Group,
            Item::Scene(s) => Item::Scene(s.clone()),
            Item::Page => Item::Page,
            Item::Mat(m) => Item::Mat(m.clone()),
            Item::Ovimg(o) => Item::Ovimg(o.clone()),
            Item::Pmat(m) => Item::Pmat(m.clone()),
        }
    }
}

} // verus!
