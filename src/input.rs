use vstd::prelude::*;

verus! {

/// The per-frame intent flags that the input layer reports.
#[derive(Clone, Copy, Debug, PartialEq, Eq, Structural)]
pub struct InputState {
    pub mover_adelante: bool,
    pub mover_atras: bool,
    pub mover_izquierda: bool,
    pub mover_derecha: bool,
    pub mover_arriba: bool,
    pub mover_abajo: bool,
    pub mirar_izquierda: bool,
    pub mirar_derecha: bool,
    pub mirar_arriba: bool,
    pub mirar_abajo: bool,
    pub warp_1: bool,
    pub warp_2: bool,
    pub warp_3: bool,
    pub warp_animated: bool,
}

impl InputState {
    /// Whether no flag is held.
    pub open spec fn is_idle(&self) -> bool {
        !self.mover_adelante && !self.mover_atras && !self.mover_izquierda
            && !self.mover_derecha && !self.mover_arriba && !self.mover_abajo
            && !self.mirar_izquierda && !self.mirar_derecha && !self.mirar_arriba
            && !self.mirar_abajo && !self.warp_1 && !self.warp_2 && !self.warp_3
            && !self.warp_animated
    }

    /// An input state with every flag released.
    pub fn new() -> (r: Self)
        ensures
            r.is_idle(),
    {
        InputState {
            mover_adelante: false,
            mover_atras: false,
            mover_izquierda: false,
            mover_derecha: false,
            mover_arriba: false,
            mover_abajo: false,
            mirar_izquierda: false,
            mirar_derecha: false,
            mirar_arriba: false,
            mirar_abajo: false,
            warp_1: false,
            warp_2: false,
            warp_3: false,
            warp_animated: false,
        }
    }

    /// The body that the held instant-warp keys send the camera to. Keys
    /// 1, 2 and 3 name bodies 1, 2 and 3 and are applied in that order, each
    /// overriding the last; one naming a body past `body_count` is ignored.
    pub fn instant_warp_target(&self, body_count: usize) -> (r: Option<usize>)
        ensures
            r == (if self.warp_3 && 3 < body_count {
                Some(3usize)
            } else if self.warp_2 && 2 < body_count {
                Some(2usize)
            } else if self.warp_1 && 1 < body_count {
                Some(1usize)
            } else {
                None
            }),
    {
        let mut target: Option<usize> = None;
        if self.warp_1 && 1 < body_count {
            target = Some(1);
        }
        if self.warp_2 && 2 < body_count {
            target = Some(2);
        }
        if self.warp_3 && 3 < body_count {
            target = Some(3);
        }
        target
    }

    /// The body that an animated warp starts toward: body 1, when its key is
    /// held, no warp is running and the body exists.
    pub fn animated_warp_target(&self, body_count: usize, warp_active: bool) -> (r: Option<usize>)
        ensures
            r == (if self.warp_animated && !warp_active && 1 < body_count {
                Some(1usize)
            } else {
                None
            }),
    {
        if self.warp_animated && !warp_active && 1 < body_count {
            Some(1)
        } else {
            None
        }
    }
}

} // verus!
