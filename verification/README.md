# dbs_dither

Halftoning by direct binary search. A picture is turned into one whose pixels are black or white
(or, channel by channel, off or on), and the pixels are toggled and swapped as long as that lowers
the error that an eye would see. The eye is modelled by a Gaussian kernel.

`src/` is a library whose functions are proved by Verus to do what their contracts say. All numbers
in it are integers: levels and weights are fixed-point numbers with sixteen fraction bits.

| module | what it holds |
| --- | --- |
| `fixed`, `fold` | saturating integers, fixed-point products, folds over grids |
| `kernel` | the kernel, its energy and its autocorrelation |
| `plane`, `picture` | channels of pictures, and pictures of the `image` crate |
| `filter`, `context` | filtering, and the state of a search: halftone and error maps |
| `ops` | toggles and swaps, and what they are expected to do to the error |
| `blocks`, `search`, `progress` | blocks in four phases, passes, the search, what is shown of it |
| `render`, `input` | halftones as bytes, and what the user types |
| `kernel_laws`, `overlap_laws` | what the tables of the kernel hold, and how they are rounded |
| `map_laws`, `swap_laws`, `follow_laws` | what operations do to the maps |
| `error_laws`, `residue_laws`, `drift_laws` | the true change of the squared error, and what rounding loses |
| `usual_laws`, `delta_laws` | contexts that come up, and how expected changes hang together |
| `measure_laws` | a number that every operation lowers, so that a search ends |
| `grid_laws`, `phase_laws` | blocks cover the picture, and do not get in each other's way |
| `search_laws`, `rest_laws` | what a search keeps, and what holds where it ends |

`app/` is the command line tool. It reads `config.yaml`:

```yaml
hvs_sigma: 1.0
hvs_kernel_size: 27
```

and asks for a picture, for the height of the result (blank: that of the picture; the width follows
in proportion), and whether to work in shades of gray. The result is saved as `[name]_dbs.png`.
