# water_app

An interactive pool of water: ripples where you click, a beach ball that floats,
bounces and rolls, rain, and an orbit camera. The height field is simulated and
drawn by a GPU pass. What the game decides and computes is a library verified with
Verus; the engine, the window and the GPU are around it.

## Layout

`src/` is the library.

- `plugin.rs`: input, dragging, the physics of the ball, rain, reset, and what the
  pass is told in a frame.
- `water_pass.rs`: the resources of the GPU pass and the plan of a frame, with the
  fixed clock that sets the steps of the simulation.
- `grid.rs`, `boxes.rs`, `uniforms.rs`, `params.rs`: the meshes of the water, the pool
  and the ball, the bytes that the GPU reads, and the parameters that the plugin and
  the pass share.
- `scene.rs`: the camera, the control panel, the rain emitter, the legend and the
  title.
- `scalar.rs`, `rounding.rs`, `arithmetic.rs`, `vector.rs`, `constants.rs`: single
  precision numbers. They are carried as bit patterns and computed with integers;
  every operation is proved to give the number nearest to the exact result, ties to
  even.
- `bounds.rs`, `ranges.rs`, `limits.rs` and the files whose names end in `laws`: what
  holds of all of this.

The bytes of words come from `bytemuck`; the two functions that call it are the only
ones in the library that are not proved.

`tests/` runs the library, against the machine's own floating point arithmetic and
`nalgebra-glm` where there is something to compare with.

`app/` is the program: it reads the engine's input, calls the library, and carries
out what it plans. Sines and cosines are computed there. The shaders are read from a
directory `shaders/` beside the program, and the sky from `assets/environment.hdr`.

## A frame

The pass steps the height field on a fixed clock, so that ripples are as fast at any
frame rate. It then projects the mesh of the water along the light into a texture of
caustics, and with it draws the pool without the walls that are in the way, the water
from above and from below, and the ball where it is shown. All of this happens in the space where the pool spans [-1, 1],
its floor lies at -1 and the water rests at 0.

## Controls

| Input | Action |
|-------|--------|
| Click or drag the pool | Add ripples |
| Drag the ball | Move it |
| Drag outside the pool | Orbit the camera |
| Scroll | Zoom |
| `Space` | Pause |
| `Q` or `Esc` | Quit |

The panel has **Rain**, **Ball** and **Reset**.
